use lib::decode;

fn decode_and_compare(expected: &[u8], encoded: &[u8], output: &mut [u8]) -> Result<(), String> {
    match decode(&encoded, output) {
        Some(len) => {
            if len != expected.len() {
                return Err(String::from("Output len not equal to input"))
            }

            for i in 0..expected.len() {
                if expected[i] != output[i] {
                    return Err(String::from("Output not equal input"))
                }
            }

            Ok(())
        },
        None => Err(String::from("Can't decode input"))
    }
}

#[test]
fn dynamic_huffman_0() -> Result<(), String> {
    let expected = b"\
        blackbird singing in the dead of night\n\
        take these broken wings and learn to fly\n\
        all your life\n\
        you were only waiting for this moment to arise\n";

    let encoded = [
        0x15, 0x8d, 0x51, 0x0a, 0xc0, 0x20, 0x0c, 0x43, 0xff, 0x3d,
        0x45, 0xae, 0x56, 0x67, 0xdd, 0x8a, 0x5d, 0x0b, 0xd5, 0x21,
        0xde, 0x7e, 0x0a, 0xf9, 0x08, 0x21, 0x2f, 0xc9, 0x4a, 0x57,
        0xcb, 0x12, 0x05, 0x5d, 0xec, 0xde, 0x82, 0x18, 0xc6, 0xc3,
        0x28, 0x4c, 0x05, 0x5e, 0x61, 0x72, 0x3f, 0x23, 0x0d, 0x6a,
        0x7c, 0xe2, 0xce, 0xc8, 0xe1, 0x8d, 0x0d, 0x73, 0x77, 0x3b,
        0xc8, 0x0a, 0x94, 0x29, 0x36, 0xe3, 0xa8, 0xba, 0x12, 0xa9,
        0x62, 0xf9, 0x17, 0x50, 0xa9, 0x9c, 0xb6, 0xc3, 0xe4, 0x60,
        0xb8, 0xe9, 0xc2, 0x24, 0x19, 0xe7, 0xa1, 0x7a, 0xec, 0x2d,
        0xe9, 0x78, 0xfd, 0x65, 0x1b, 0x07, 0xa5, 0x90, 0xce, 0xe9,
        0x07,
    ];

    let mut output = [0u8; 200];
    decode_and_compare(expected, &encoded, &mut output)
}

#[test]
fn dynamic_huffman_1() -> Result<(), String> {
    let expected = b"\
        I saw you dancing in a crowded room\n\
        You look so happy when I'm not with you\n\
        But then you saw me, caught you by surprise\n\
        A single teardrop falling from your eye";

    let encoded = [
        0x1d, 0x8d, 0x31, 0x0e, 0xc3, 0x20, 0x10, 0x04, 0x7b, 0x5e,
        0xb1, 0x5d, 0x9a, 0x7c, 0x22, 0xe9, 0xfc, 0x84, 0x94, 0x17,
        0x73, 0x36, 0x28, 0xc0, 0xa1, 0x03, 0x84, 0xf8, 0xbd, 0x7d,
        0x69, 0x77, 0x56, 0x33, 0x1b, 0x1a, 0x4d, 0x2c, 0x19, 0xf0,
        0x54, 0xf6, 0x58, 0x4e, 0xc4, 0x02, 0xc2, 0xae, 0x32, 0x3d,
        0x7b, 0xa8, 0x48, 0x76, 0x9f, 0x9b, 0x26, 0x91, 0x1f, 0x9a,
        0x20, 0x50, 0xad, 0x0b, 0x33, 0x70, 0xc1, 0xf6, 0xc8, 0x28,
        0xd2, 0x31, 0x63, 0x0f, 0x66, 0x70, 0xef, 0xd1, 0xd1, 0x8d,
        0x98, 0xce, 0xb4, 0x99, 0x9f, 0xd8, 0x69, 0x9c, 0xa1, 0xff,
        0xa7, 0xef, 0x42, 0x1b, 0x5a, 0x35, 0x36, 0x76, 0x2f, 0xb4,
        0x3b, 0x96, 0x18, 0x9d, 0x49, 0xbd, 0x4a, 0xc5, 0x41, 0x29,
        0x59, 0xff, 0x50, 0xc9, 0x76, 0x57, 0xf0, 0xe2, 0x0b,
    ];

    let mut output = [0u8; 200];
    decode_and_compare(expected, &encoded, &mut output)
}

#[test]
fn static_huffman_0() -> Result<(), String> {
    let expected = b"Deflate late";

    let encoded = [0x73, 0x49, 0x4D, 0xCB, 0x49, 0x2C, 0x49, 0x55, 0x00, 0x11, 0x00];

    let mut output = [0u8; 200];
    decode_and_compare(expected, &encoded, &mut output)
}

#[test]
fn static_huffman_1() -> Result<(), String> {
    let expected = b"\
        In the land of Gods and Monsters\n\
        I was an angel\n\
        Livin' in the garden of evil\n\
        Screwed up, scared, doing anything that I needed\n\
        Shinin' like a fiery beacon";

    let encoded = [
        0xf3, 0xcc, 0x53, 0x28, 0xc9, 0x48, 0x55, 0xc8, 0x49, 0xcc, 
        0x4b, 0x51, 0xc8, 0x4f, 0x53, 0x70, 0xcf, 0x4f, 0x29, 0x56, 
        0x00, 0xb1, 0x7d, 0xf3, 0xf3, 0x8a, 0x4b, 0x52, 0x8b, 0x8a, 
        0xb9, 0x3c, 0x15, 0xca, 0x13, 0x41, 0x42, 0x40, 0x94, 0x9e, 
        0x9a, 0xc3, 0xe5, 0x93, 0x59, 0x96, 0x99, 0xa7, 0xae, 0x90, 
        0x09, 0xd1, 0x96, 0x9e, 0x58, 0x94, 0x92, 0x9a, 0x07, 0xd2, 
        0x98, 0x5a, 0x96, 0x99, 0xc3, 0x15, 0x9c, 0x5c, 0x94, 0x5a, 
        0x9e, 0x9a, 0xa2, 0x50, 0x5a, 0xa0, 0xa3, 0x50, 0x9c, 0x9c, 
        0x58, 0x94, 0x9a, 0xa2, 0xa3, 0x90, 0x92, 0x9f, 0x99, 0x97, 
        0x0e, 0xd4, 0x5c, 0x59, 0x92, 0x01, 0x62, 0x94, 0x64, 0x24, 
        0x96, 0x28, 0x78, 0x2a, 0xe4, 0xa5, 0xa6, 0xa6, 0xa4, 0xa6, 
        0x70, 0x05, 0x03, 0xc5, 0x40, 0xc6, 0xe5, 0x64, 0x66, 0xa7, 
        0x2a, 0x24, 0x2a, 0xa4, 0x65, 0xa6, 0x16, 0x55, 0x2a, 0x24, 
        0xa5, 0x26, 0x26, 0xe7, 0xe7, 0x01, 0x00];

    let mut output = [0u8; 200];
    decode_and_compare(expected, &encoded, &mut output)
}

#[test]
fn no_compression_0() -> Result<(), String> {
    let expected = b"\
        I'd sit alone and watch your light\n\
        My only friend through teenage nights\n\
        And everything I had to know\n\
        I heard it on my radio";

    let encoded = [
        0x01, 0x7c, 0x00, 0x83, 0xff, 0x49, 0x27, 0x64, 0x20, 0x73,
        0x69, 0x74, 0x20, 0x61, 0x6c, 0x6f, 0x6e, 0x65, 0x20, 0x61,
        0x6e, 0x64, 0x20, 0x77, 0x61, 0x74, 0x63, 0x68, 0x20, 0x79,
        0x6f, 0x75, 0x72, 0x20, 0x6c, 0x69, 0x67, 0x68, 0x74, 0x0a,
        0x4d, 0x79, 0x20, 0x6f, 0x6e, 0x6c, 0x79, 0x20, 0x66, 0x72,
        0x69, 0x65, 0x6e, 0x64, 0x20, 0x74, 0x68, 0x72, 0x6f, 0x75,
        0x67, 0x68, 0x20, 0x74, 0x65, 0x65, 0x6e, 0x61, 0x67, 0x65,
        0x20, 0x6e, 0x69, 0x67, 0x68, 0x74, 0x73, 0x0a, 0x41, 0x6e,
        0x64, 0x20, 0x65, 0x76, 0x65, 0x72, 0x79, 0x74, 0x68, 0x69,
        0x6e, 0x67, 0x20, 0x49, 0x20, 0x68, 0x61, 0x64, 0x20, 0x74,
        0x6f, 0x20, 0x6b, 0x6e, 0x6f, 0x77, 0x0a, 0x49, 0x20, 0x68,
        0x65, 0x61, 0x72, 0x64, 0x20, 0x69, 0x74, 0x20, 0x6f, 0x6e,
        0x20, 0x6d, 0x79, 0x20, 0x72, 0x61, 0x64, 0x69, 0x6f];

    let mut output = [0u8; 200];
    decode_and_compare(expected, &encoded, &mut output)
}

#[test]
fn no_compression_1() -> Result<(), String> {
    let expected = b"\
        So you think you can stone me and spit in my eye\n\
        So you think you can love me and leave me to die\n\
        Oh baby - can't do this to me baby\n\
        Just gotta get out - just gotta get right outta here";

    let encoded = [
        0x01, 0xb9, 0x00, 0x46, 0xff, 0x53, 0x6f, 0x20, 0x79, 0x6f,
        0x75, 0x20, 0x74, 0x68, 0x69, 0x6e, 0x6b, 0x20, 0x79, 0x6f,
        0x75, 0x20, 0x63, 0x61, 0x6e, 0x20, 0x73, 0x74, 0x6f, 0x6e,
        0x65, 0x20, 0x6d, 0x65, 0x20, 0x61, 0x6e, 0x64, 0x20, 0x73,
        0x70, 0x69, 0x74, 0x20, 0x69, 0x6e, 0x20, 0x6d, 0x79, 0x20,
        0x65, 0x79, 0x65, 0x0a, 0x53, 0x6f, 0x20, 0x79, 0x6f, 0x75,
        0x20, 0x74, 0x68, 0x69, 0x6e, 0x6b, 0x20, 0x79, 0x6f, 0x75,
        0x20, 0x63, 0x61, 0x6e, 0x20, 0x6c, 0x6f, 0x76, 0x65, 0x20,
        0x6d, 0x65, 0x20, 0x61, 0x6e, 0x64, 0x20, 0x6c, 0x65, 0x61,
        0x76, 0x65, 0x20, 0x6d, 0x65, 0x20, 0x74, 0x6f, 0x20, 0x64,
        0x69, 0x65, 0x0a, 0x4f, 0x68, 0x20, 0x62, 0x61, 0x62, 0x79,
        0x20, 0x2d, 0x20, 0x63, 0x61, 0x6e, 0x27, 0x74, 0x20, 0x64,
        0x6f, 0x20, 0x74, 0x68, 0x69, 0x73, 0x20, 0x74, 0x6f, 0x20,
        0x6d, 0x65, 0x20, 0x62, 0x61, 0x62, 0x79, 0x0a, 0x4a, 0x75,
        0x73, 0x74, 0x20, 0x67, 0x6f, 0x74, 0x74, 0x61, 0x20, 0x67,
        0x65, 0x74, 0x20, 0x6f, 0x75, 0x74, 0x20, 0x2d, 0x20, 0x6a,
        0x75, 0x73, 0x74, 0x20, 0x67, 0x6f, 0x74, 0x74, 0x61, 0x20,
        0x67, 0x65, 0x74, 0x20, 0x72, 0x69, 0x67, 0x68, 0x74, 0x20,
        0x6f, 0x75, 0x74, 0x74, 0x61, 0x20, 0x68, 0x65, 0x72, 0x65];

    let mut output = [0u8; 200];
    decode_and_compare(expected, &encoded, &mut output)
}
