use lib::bits::BitStream;
use lib::dump::{assign_codes, match_code, next_code_length_symbol, read_block_header};
use lib::huffman::{DictionaryBuilder, Lookup};
use lib::inflate::{huffman_copy_pair, huffman_read_length, static_huffman_decode};
use lib::tables::{distance_entry, length_entry};
use lib::{decode, decode_checked, Status};

fn is_fault(s: Status) -> bool {
    matches!(s, Status::Fault)
}

#[test]
fn empty_fixed_block_decodes_to_nothing() {
    let mut out = [7u8; 4];
    assert_eq!(decode(&[0x03, 0x00], &mut out), Some(0));
    assert_eq!(out, [7u8; 4]);
}

#[test]
fn fixed_block_single_literal() {
    let mut out = [0u8; 4];
    assert_eq!(decode(&[0x73, 0x04, 0x00], &mut out), Some(1));
    assert_eq!(out[0], b'A');
}

#[test]
fn fixed_block_overlapping_copy() {
    let mut out = [0u8; 8];
    assert_eq!(decode(&[0x4b, 0x04, 0x02, 0x00], &mut out), Some(4));
    assert_eq!(&out[..4], b"aaaa");
}

#[test]
fn reserved_block_type_is_refused() {
    let mut out = [9u8; 3];
    assert_eq!(decode(&[0x07], &mut out), None);
    assert_eq!(out, [9u8; 3]);
}

#[test]
fn reserved_fixed_code_is_refused() {
    let mut out = [0u8; 3];
    assert_eq!(decode(&[0x1b, 0x03], &mut out), None);
}

#[test]
fn empty_input_faults() {
    let mut out = [0u8; 3];
    assert!(is_fault(decode_checked(&[], &mut out)));
}

#[test]
fn distance_before_start_faults() {
    let mut out = [0u8; 8];
    assert!(is_fault(decode_checked(&[0x03, 0x02], &mut out)));
}

#[test]
fn stored_block_is_copied() {
    let input = [0x01, 0x03, 0x00, 0xfc, 0xff, b'a', b'b', b'c'];
    let mut out = [b'z'; 5];
    assert_eq!(decode(&input, &mut out), Some(3));
    assert_eq!(&out, b"abczz");
}

#[test]
fn stored_block_too_long_for_output_faults() {
    let input = [0x01, 0x03, 0x00, 0xfc, 0xff, b'a', b'b', b'c'];
    let mut out = [0u8; 2];
    assert!(is_fault(decode_checked(&input, &mut out)));
}

#[test]
fn decode_checked_reports_count() {
    let mut out = [0u8; 4];
    assert!(matches!(decode_checked(&[0x73, 0x04, 0x00], &mut out), Status::Done(1)));
}

#[test]
fn bits_read_in_both_orders() {
    let data = [0b1011_0010u8, 0xff];
    let mut s = BitStream::new(&data);
    assert_eq!(s.read(3), Some(0b010));
    s.set_static_huffman_bit_order(true);
    assert_eq!(s.read(3), Some(0b011));
    s.skip_bits_to_byte_border();
    assert_eq!(s.position(), (1, 0));
    assert_eq!(s.read(8), Some(0xff));
    assert_eq!(s.read(1), None);
}

#[test]
fn skip_stays_on_border() {
    let data = [0u8; 2];
    let mut s = BitStream::new(&data);
    s.skip_bits_to_byte_border();
    assert_eq!(s.position(), (0, 0));
    assert_eq!(s.read(1), Some(0));
    s.skip_bits_to_byte_border();
    assert_eq!(s.position(), (1, 0));
}

#[test]
fn length_and_distance_tables() {
    let e = length_entry(0);
    assert_eq!((e.bits, e.len), (0, 3));
    let e = length_entry(28);
    assert_eq!((e.bits, e.len), (0, 258));
    let e = length_entry(27);
    assert_eq!((e.bits, e.len), (5, 227));
    let e = distance_entry(29);
    assert_eq!((e.bits, e.len), (13, 24577));
    let e = distance_entry(4);
    assert_eq!((e.bits, e.len), (1, 5));
}

#[test]
fn read_length_with_extra_bits() {
    let data = [0b0000_0001u8];
    let mut s = BitStream::new(&data);
    assert_eq!(huffman_read_length(265, &mut s), Some(12));
    let mut s = BitStream::new(&data);
    assert_eq!(huffman_read_length(286, &mut s), None);
}

#[test]
fn copy_pair_repeats_bytes() {
    let mut buf = [1u8, 2, 0, 0, 0];
    let mut pos = 2usize;
    assert!(huffman_copy_pair(3, 2, &mut buf, &mut pos, 0));
    assert_eq!(buf, [1, 2, 1, 2, 1]);
    assert_eq!(pos, 5);
}

#[test]
fn copy_pair_refuses_out_of_range() {
    let mut buf = [1u8, 2, 0];
    let mut pos = 2usize;
    assert!(!huffman_copy_pair(2, 1, &mut buf, &mut pos, 0));
    assert!(!huffman_copy_pair(1, 3, &mut buf, &mut pos, 0));
    assert_eq!(buf, [1, 2, 0]);
    assert_eq!(pos, 2);
}

fn rfc_example_dictionary() -> lib::huffman::Dictionary {
    let mut b = DictionaryBuilder::new(8);
    for len in [3u8, 3, 3, 3, 3, 2, 4, 4] {
        assert!(b.put(len));
    }
    assert!(b.is_full());
    assert!(!b.put(1));
    b.build_dictionary().unwrap()
}

#[test]
fn canonical_codes_of_rfc_example() {
    let d = rfc_example_dictionary();
    assert!(matches!(d.find(0b00, 2), Lookup::Found(5)));
    assert!(matches!(d.find(0b010, 3), Lookup::Found(0)));
    assert!(matches!(d.find(0b110, 3), Lookup::Found(4)));
    assert!(matches!(d.find(0b1110, 4), Lookup::Found(6)));
    assert!(matches!(d.find(0b1111, 4), Lookup::Found(7)));
    assert!(matches!(d.find(0b111, 3), Lookup::Absent));
    assert!(matches!(d.find(0, 1), Lookup::Absent));
    assert!(matches!(d.find(0, 16), Lookup::Fault));
}

#[test]
fn codes_read_from_stream() {
    let d = rfc_example_dictionary();
    // 1110 (symbol 6) then 00 (symbol 5), most significant bit first
    let data = [0b0000_0111u8];
    let mut s = BitStream::new(&data);
    assert!(matches!(d.find_in_bit_stream(&mut s), Lookup::Found(6)));
    assert!(matches!(d.find_in_bit_stream(&mut s), Lookup::Found(5)));
    assert_eq!(s.position(), (0, 6));
}

#[test]
fn builder_repeats_last_length() {
    let mut b = DictionaryBuilder::new(3);
    assert!(b.put(2));
    assert!(b.put_last());
    assert!(b.put_last());
    assert!(!b.put_last());
    assert_eq!(b.count(), 3);
    let d = b.build_dictionary().unwrap();
    assert!(matches!(d.find(0b10, 2), Lookup::Found(2)));
}

#[test]
fn many_codes_of_one_length_build() {
    // 256 symbols of length 9 and one of length 1
    let mut b = DictionaryBuilder::new(257);
    for _ in 0..256 {
        assert!(b.put(9));
    }
    assert!(b.put(1));
    let d = b.build_dictionary().unwrap();
    assert!(matches!(d.find(0, 1), Lookup::Found(256)));
    assert!(matches!(d.find(256, 9), Lookup::Found(0)));
    assert!(matches!(d.find(511, 9), Lookup::Found(255)));
    assert!(matches!(d.find(255, 9), Lookup::Absent));
}

#[test]
fn code_overflow_faults() {
    // seven codes of length 1, one of each length 2 to 13, two of length 14:
    // the first code of length 14 is 65534, so its two codes need 65536
    let mut b = DictionaryBuilder::new(21);
    for _ in 0..7 {
        assert!(b.put(1));
    }
    for len in 2u8..14 {
        assert!(b.put(len));
    }
    assert!(b.put(14));
    assert!(b.put(14));
    assert!(b.build_dictionary().is_none());
}

#[test]
fn dump_reads_header() {
    let data = [
        0x15u8, 0x8d, 0x51, 0x0a, 0xc0, 0x20, 0x0c, 0x43, 0xff, 0x3d, 0x45, 0xae,
    ];
    let mut s = BitStream::new(&data);
    let h = read_block_header(&mut s).unwrap();
    assert!(h.last_block);
    assert_eq!(h.block_type, 2);
    assert_eq!(h.hlit, 257 + 2);
    assert_eq!(h.hdist, 1 + 13);
    assert_eq!(h.hclen, 4 + 12);
}

#[test]
fn dump_assigns_codes() {
    let mut lens = vec![0u8; 19];
    lens[0] = 2;
    lens[1] = 3;
    lens[2] = 3;
    lens[3] = 1;
    let codes = assign_codes(&lens).unwrap();
    assert_eq!((codes[3].code, codes[3].len), (0, 1));
    assert_eq!((codes[0].code, codes[0].len), (2, 2));
    assert_eq!((codes[1].code, codes[1].len), (6, 3));
    assert_eq!((codes[2].code, codes[2].len), (7, 3));
    assert_eq!(match_code(&codes, 3, 7), Some(2));
    assert_eq!(match_code(&codes, 1, 0), Some(3));
    assert_eq!(match_code(&codes, 2, 0), None);
}

#[test]
fn dump_reads_symbols() {
    let mut lens = vec![0u8; 19];
    lens[17] = 1;
    lens[4] = 2;
    let codes = assign_codes(&lens).unwrap();
    // symbol 17 has code 0 of length 1 and takes 3 extra bits; symbol 4 has code 00 of length 2
    let data = [0b0000_0000u8];
    let mut s = BitStream::new(&data);
    assert_eq!(next_code_length_symbol(&mut s, &codes), Some(17));
    assert_eq!(s.position(), (0, 4));
    assert_eq!(next_code_length_symbol(&mut s, &codes), Some(17));
    assert_eq!(next_code_length_symbol(&mut s, &codes), None);
}

#[test]
fn reads_compose() {
    let data = [0b1010_1100u8, 0b0000_0011];
    let mut whole = BitStream::new(&data);
    let all = whole.read(11).unwrap();
    let mut parts = BitStream::new(&data);
    let low = parts.read(3).unwrap();
    let high = parts.read(8).unwrap();
    assert_eq!(all, low + (high << 3));
    assert_eq!(all, 0b011_1010_1100);
}

fn hex(text: &str) -> Vec<u8> {
    let clean: Vec<u8> = text.bytes().filter(|b| !b.is_ascii_whitespace()).collect();
    clean
        .chunks(2)
        .map(|pair| u8::from_str_radix(std::str::from_utf8(pair).unwrap(), 16).unwrap())
        .collect()
}

fn decoded(input: &[u8], room: usize) -> Vec<u8> {
    let mut out = vec![0u8; room];
    let n = decode(input, &mut out).expect("the input decodes");
    assert!(out[n..].iter().all(|&b| b == 0));
    out.truncate(n);
    out
}

const FOX_DOG: &[u8] = b"the quick brown fox jumps over the lazy dog. ";

#[test]
fn fixed_block_writes_from_output_pos() {
    // the literal 'A' then the end-of-block code, from bit 0 on
    let data = [0x8eu8, 0x00];
    let mut out = [0u8; 4];
    let mut s = BitStream::new(&data);
    assert!(matches!(static_huffman_decode(&mut s, &mut out, 0), Status::Done(1)));
    assert_eq!(out, [b'A', 0, 0, 0]);
    let mut out = [0u8; 4];
    let mut s = BitStream::new(&data);
    assert!(matches!(static_huffman_decode(&mut s, &mut out, 2), Status::Done(1)));
    assert_eq!(out, [0, 0, b'A', 0]);
    let mut s = BitStream::new(&data);
    assert!(is_fault(static_huffman_decode(&mut s, &mut out, 4)));
}

#[test]
fn fixed_block_end_leaves_msb_order() {
    let data = [0x00u8];
    let mut out = [0u8; 4];
    let mut s = BitStream::new(&data);
    assert!(matches!(static_huffman_decode(&mut s, &mut out, 0), Status::Done(0)));
    assert_eq!(out, [0u8; 4]);
    assert_eq!(s.position(), (0, 7));
    assert!(s.is_msb_first());
}

#[test]
fn fixed_block_length_extra_bits_least_significant_first() {
    // 'a', then length code 269 with extra bits 1,0 (length 20), distance code 0, end of block
    let data = [0x89u8, 0xd8, 0x00, 0x00];
    let mut out = [0u8; 32];
    let mut s = BitStream::new(&data);
    assert!(matches!(static_huffman_decode(&mut s, &mut out, 0), Status::Done(21)));
    assert_eq!(&out[..21], &[b'a'; 21]);
    assert_eq!(&out[21..], &[0u8; 11]);
}

#[test]
fn two_fixed_blocks_concatenate() {
    assert_eq!(decoded(&[0x72, 0x04, 0xcc, 0x09, 0x00], 8), b"AB");
}

#[test]
fn blocks_with_shared_window() {
    // a dynamic block, a sync point, then a fixed block that copies from the first one
    let input = hex(
        "2ac94855282ccd4cce56482aca2fcf5348cbaf50c82acd2d2856c82f4b2d522801
         4ae72456552aa4e4a7eb2900000000ffff2b2152717262892200",
    );
    let mut expected = FOX_DOG.to_vec();
    expected.extend_from_slice(b"the quick brown fox jumps over the lazy cat!");
    assert_eq!(decoded(&input, 100), expected);
}

#[test]
fn fixed_blocks_with_shared_window() {
    let mut input = hex(
        "2ac94855282ccd4cce56482aca2fcf5348cbaf50c82acd2d2856c82f4b2d522801
         4ae72456552aa4e4a7eb2900000000ffff",
    );
    input.extend_from_slice(&hex("2b21453100"));
    let mut expected = FOX_DOG.to_vec();
    expected.extend_from_slice(FOX_DOG);
    assert_eq!(decoded(&input, 100), expected);
}

#[test]
fn stored_blocks_follow_one_another() {
    let mut text = FOX_DOG.to_vec();
    text.extend_from_slice(b"the quick brown fox jumps over the lazy cat!");
    let mut input = vec![0x00, 0x2d, 0x00, 0xd2, 0xff];
    input.extend_from_slice(&text[..45]);
    input.extend_from_slice(&[0x01, 0x2c, 0x00, 0xd3, 0xff]);
    input.extend_from_slice(&text[45..]);
    assert_eq!(decoded(&input, 100), text);
}

#[test]
fn repeat_code_takes_two_extra_bits() {
    let input = hex(
        "358b891100300 8c2664df61fa216d1f3c388c8e66f135091c5dc5cb6085b1179c173d654ffa1190f",
    );
    let expected: &[u8] = b"babaabaababaabbbbaaaababaaaaaabbabbbbbbaabbbaaaabaabbaabbaaaabaaabbababbbbbaaaaaaaabbaabaaaaabababbbbaba";
    assert_eq!(decoded(&input, 128), expected);
    let input = hex(
        "1d8dc911c0400cc26a35a7fbaf20def01333883809ac25324 5c9a0101c638df1ccf1482596225a7b
         0365669c6d0a649f21a62c9d0d8ba89e303e8634ead5f827ef0abcdc85f901",
    );
    let expected: &[u8] = b"fefffbedhcbfagbgccfbgbdbefebhebaeaabgbaddgcbhcdcbggeehfbdfaaaefhgfgbbfhbedhfecdeddfbebhbfdgeafcfedfbbddadgbebbaaefhhcbfbccccfebec";
    assert_eq!(decoded(&input, 160), expected);
}

#[test]
fn repeat_crosses_into_distance_lengths() {
    let input = hex("05830501000000 82b6aaff2f48a64b05");
    assert_eq!(decoded(&input, 8), b"abcab");
}

#[test]
fn repeat_starts_distance_lengths() {
    let input = hex("05830501000000 82b6aaff2f08952e15");
    assert_eq!(decoded(&input, 8), b"abcab");
}

#[test]
fn length_and_distance_ranges_are_adjacent() {
    for i in 0..27 {
        let (e, next) = (length_entry(i), length_entry(i + 1));
        assert_eq!(e.len as u32 + (1u32 << e.bits), next.len as u32);
    }
    assert_eq!(length_entry(0).len, 3);
    assert_eq!(length_entry(27).len as u32 + (1u32 << length_entry(27).bits) - 1, 258);
    for i in 0..29 {
        let (e, next) = (distance_entry(i), distance_entry(i + 1));
        assert_eq!(e.len as u32 + (1u32 << e.bits), next.len as u32);
    }
    assert_eq!(distance_entry(0).len, 1);
    assert_eq!(distance_entry(29).len as u32 + (1u32 << distance_entry(29).bits) - 1, 32768);
}

#[test]
fn decoding_keeps_bytes_past_its_count() {
    let mut out = [0x5au8; 12];
    assert_eq!(decode(&[0x72, 0x04, 0xcc, 0x09, 0x00], &mut out), Some(2));
    assert_eq!(&out[..2], b"AB");
    assert_eq!(&out[2..], &[0x5au8; 10]);
}

#[test]
fn lookups_follow_the_canonical_code_sum() {
    let lens = [3usize, 3, 3, 3, 3, 2, 4, 4];
    let d = rfc_example_dictionary();
    let count = |l: usize| lens.iter().filter(|&&x| x == l).count() as u16;
    for (s, &l) in lens.iter().enumerate() {
        let shorter: u16 = (1..l).map(|k| count(k) << (l - k)).sum();
        let before = lens[..s].iter().filter(|&&x| x == l).count() as u16;
        let code = shorter + before;
        assert!(matches!(d.find(code, l as u16), Lookup::Found(t) if t as usize == s));
    }
    // no code is a prefix of a longer one
    for l1 in 1u16..5 {
        for c1 in 0u16..(1 << l1) {
            if matches!(d.find(c1, l1), Lookup::Found(_)) {
                for l2 in (l1 + 1)..5 {
                    for low in 0u16..(1 << (l2 - l1)) {
                        let c2 = (c1 << (l2 - l1)) | low;
                        assert!(matches!(d.find(c2, l2), Lookup::Absent));
                    }
                }
            }
        }
    }
}
