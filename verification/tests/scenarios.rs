use transcode::{ByteSource, Transcode, TranscodeError};
use transcode::laws::transcode_cycle;

#[test]
fn encode_u32_300_is_4_le_bytes() {
    let mut data: Vec<u8> = vec![];
    let n = 300u32.to_bytes(&mut data).unwrap();
    assert_eq!(n, 4);
    assert_eq!(data, vec![0x2C, 0x01, 0x00, 0x00]);
    let mut src = ByteSource::new(data);
    assert_eq!(u32::from_bytes(&mut src).unwrap(), 300);
    assert_eq!(src.remaining_len(), 0);
}

#[test]
fn encode_three_bytes_has_length_prefix_3() {
    let mut data: Vec<u8> = vec![];
    let n = vec![1u8, 2, 3].to_bytes(&mut data).unwrap();
    assert_eq!(n, 11);
    assert_eq!(data, vec![3, 0, 0, 0, 0, 0, 0, 0, 1, 2, 3]);
}

#[test]
fn encode_empty_sequence_is_zero_prefix_only() {
    let mut data: Vec<u8> = vec![];
    let empty: Vec<u8> = vec![];
    let n = empty.to_bytes(&mut data).unwrap();
    assert_eq!(n, 8);
    assert_eq!(data, vec![0, 0, 0, 0, 0, 0, 0, 0]);
}

#[test]
fn encode_pair_of_u32_is_8_bytes() {
    let mut data: Vec<u8> = vec![];
    let n = (1u32, 2u32).to_bytes(&mut data).unwrap();
    assert_eq!(n, 8);
    assert_eq!(data, vec![1, 0, 0, 0, 2, 0, 0, 0]);
    let mut src = ByteSource::new(data);
    assert_eq!(<(u32, u32)>::from_bytes(&mut src).unwrap(), (1, 2));
}

#[test]
fn decode_u32_from_2_bytes_fails() {
    let mut src = ByteSource::new(vec![0xAA, 0xBB]);
    assert_eq!(u32::from_bytes(&mut src), Err(TranscodeError::UnexpectedEnd));
}

#[test]
fn fixed_widths_are_exact() {
    let mut data: Vec<u8> = vec![];
    assert_eq!(0xDEADu16.to_bytes(&mut data).unwrap(), 2);
    assert_eq!(7u32.to_bytes(&mut data).unwrap(), 4);
    assert_eq!(7u64.to_bytes(&mut data).unwrap(), 8);
    assert_eq!(7u128.to_bytes(&mut data).unwrap(), 16);
    assert_eq!((-7i8).to_bytes(&mut data).unwrap(), 1);
    assert_eq!((-7i16).to_bytes(&mut data).unwrap(), 2);
    assert_eq!((-7i32).to_bytes(&mut data).unwrap(), 4);
    assert_eq!((-7i64).to_bytes(&mut data).unwrap(), 8);
    assert_eq!((-7i128).to_bytes(&mut data).unwrap(), 16);
    assert_eq!(7usize.to_bytes(&mut data).unwrap(), 8);
    assert_eq!((-7isize).to_bytes(&mut data).unwrap(), 8);
    assert_eq!(data.len(), 2 + 4 + 8 + 16 + 1 + 2 + 4 + 8 + 16 + 8 + 8);
}

#[test]
fn unit_and_empty_array_take_zero_bytes() {
    let mut data: Vec<u8> = vec![];
    assert_eq!(().to_bytes(&mut data).unwrap(), 0);
    let empty: [u64; 0] = [];
    assert_eq!(empty.to_bytes(&mut data).unwrap(), 0);
    assert_eq!(data.len(), 0);
    let mut src = ByteSource::new(data);
    assert_eq!(<() as Transcode>::from_bytes(&mut src).unwrap(), ());
    let decoded: [u64; 0] = <[u64; 0]>::from_bytes(&mut src).unwrap();
    assert_eq!(decoded, []);
    assert_eq!(src.remaining_len(), 0);
}

#[test]
fn every_scalar_fails_on_short_stream() {
    assert!(u8::from_bytes(&mut ByteSource::new(vec![])).is_err());
    assert!(i8::from_bytes(&mut ByteSource::new(vec![])).is_err());
    assert!(u16::from_bytes(&mut ByteSource::new(vec![1])).is_err());
    assert!(i16::from_bytes(&mut ByteSource::new(vec![1])).is_err());
    assert!(u32::from_bytes(&mut ByteSource::new(vec![1, 2, 3])).is_err());
    assert!(i32::from_bytes(&mut ByteSource::new(vec![1, 2, 3])).is_err());
    assert!(u64::from_bytes(&mut ByteSource::new(vec![1; 7])).is_err());
    assert!(i64::from_bytes(&mut ByteSource::new(vec![1; 7])).is_err());
    assert!(u128::from_bytes(&mut ByteSource::new(vec![1; 15])).is_err());
    assert!(i128::from_bytes(&mut ByteSource::new(vec![1; 15])).is_err());
    assert!(usize::from_bytes(&mut ByteSource::new(vec![1; 7])).is_err());
    assert!(isize::from_bytes(&mut ByteSource::new(vec![1; 7])).is_err());
}

#[test]
fn i8_decode_is_strict_not_zero_filled() {
    // an exhausted source must fail, never hand back a zero-valued byte
    let mut src = ByteSource::new(vec![]);
    assert_eq!(i8::from_bytes(&mut src), Err(TranscodeError::UnexpectedEnd));
}

#[test]
fn signed_values_keep_their_bit_pattern() {
    let mut data: Vec<u8> = vec![];
    (-1i8).to_bytes(&mut data).unwrap();
    assert_eq!(data, vec![0xFF]);
    let mut src = ByteSource::new(data);
    assert_eq!(i8::from_bytes(&mut src).unwrap(), -1);

    let mut data2: Vec<u8> = vec![];
    (-2i32).to_bytes(&mut data2).unwrap();
    assert_eq!(data2, vec![0xFE, 0xFF, 0xFF, 0xFF]);
    let mut src2 = ByteSource::new(data2);
    assert_eq!(i32::from_bytes(&mut src2).unwrap(), -2);
}

#[test]
fn byte_count_equals_bytes_consumed() {
    let value: Vec<u32> = vec![10, 20, 30];
    let mut data: Vec<u8> = vec![];
    let n = value.to_bytes(&mut data).unwrap();
    assert_eq!(n, data.len());
    // extra trailing bytes must be left untouched by the decoder
    data.extend_from_slice(&[0xEE, 0xEF]);
    let total = data.len();
    let mut src = ByteSource::new(data);
    let decoded = Vec::<u32>::from_bytes(&mut src).unwrap();
    assert_eq!(decoded, value);
    assert_eq!(total - src.remaining_len(), n);
}

#[test]
fn transcode_cycle_reports_matching_counts() {
    let value: Vec<u64> = vec![5, 6, 7, 8];
    let (decoded, written, consumed) = transcode_cycle(&value).unwrap();
    assert_eq!(decoded, value);
    assert_eq!(written, consumed);
    assert_eq!(written, 8 + 4 * 8);
}

#[test]
fn tuples_encode_components_in_order() {
    let mut data: Vec<u8> = vec![];
    let n = (0x11u8, 0x2233u16, 0x44556677u32).to_bytes(&mut data).unwrap();
    assert_eq!(n, 7);
    assert_eq!(data, vec![0x11, 0x33, 0x22, 0x77, 0x66, 0x55, 0x44]);
    let mut src = ByteSource::new(data);
    let back = <(u8, u16, u32)>::from_bytes(&mut src).unwrap();
    assert_eq!(back, (0x11, 0x2233, 0x44556677));

    let mut data1: Vec<u8> = vec![];
    assert_eq!((9u64,).to_bytes(&mut data1).unwrap(), 8);
    let mut src1 = ByteSource::new(data1);
    assert_eq!(<(u64,)>::from_bytes(&mut src1).unwrap(), (9,));
}

#[test]
fn arrays_have_no_prefix_and_keep_order() {
    let value: [u16; 3] = [0x0102, 0x0304, 0x0506];
    let mut data: Vec<u8> = vec![];
    let n = value.to_bytes(&mut data).unwrap();
    assert_eq!(n, 6);
    assert_eq!(data, vec![0x02, 0x01, 0x04, 0x03, 0x06, 0x05]);
    let mut src = ByteSource::new(data);
    let back: [u16; 3] = <[u16; 3]>::from_bytes(&mut src).unwrap();
    assert_eq!(back, value);

    let big: [u64; 32] = [7; 32];
    let mut data2: Vec<u8> = vec![];
    assert_eq!(big.to_bytes(&mut data2).unwrap(), 256);
    let mut src2 = ByteSource::new(data2);
    let back2: [u64; 32] = <[u64; 32]>::from_bytes(&mut src2).unwrap();
    assert_eq!(back2, big);
}

#[test]
fn boxed_slice_round_trips_like_a_sequence() {
    let value: Box<[u32]> = vec![1, 2, 3, 4].into_boxed_slice();
    let mut data: Vec<u8> = vec![];
    let n = value.to_bytes(&mut data).unwrap();
    assert_eq!(n, 8 + 16);
    let mut src = ByteSource::new(data);
    let back: Box<[u32]> = Box::<[u32]>::from_bytes(&mut src).unwrap();
    assert_eq!(back, value);
}

#[test]
fn usize_and_isize_are_8_bytes_on_the_wire() {
    let mut data: Vec<u8> = vec![];
    assert_eq!(usize::MAX.to_bytes(&mut data).unwrap(), 8);
    assert_eq!(isize::MIN.to_bytes(&mut data).unwrap(), 8);
    let mut src = ByteSource::new(data);
    assert_eq!(usize::from_bytes(&mut src).unwrap(), usize::MAX);
    assert_eq!(isize::from_bytes(&mut src).unwrap(), isize::MIN);
}

#[test]
fn map_decode_keeps_last_value_for_duplicate_key() {
    // count 2, then pairs (1 -> 10) and (1 -> 20), as u8 keys and values
    let data: Vec<u8> = vec![2, 0, 0, 0, 0, 0, 0, 0, 1, 10, 1, 20];
    let mut src = ByteSource::new(data);
    let m = std::collections::HashMap::<u8, u8>::from_bytes(&mut src).unwrap();
    assert_eq!(m.len(), 1);
    assert_eq!(m[&1], 20);
}

#[test]
fn set_decode_collapses_duplicate_elements() {
    let data: Vec<u8> = vec![2, 0, 0, 0, 0, 0, 0, 0, 5, 5];
    let mut src = ByteSource::new(data);
    let s = std::collections::HashSet::<u8>::from_bytes(&mut src).unwrap();
    assert_eq!(s.len(), 1);
    assert!(s.contains(&5));
}

#[test]
fn sequence_decode_fails_when_elements_run_short() {
    // claims 3 elements but supplies 2
    let data: Vec<u8> = vec![3, 0, 0, 0, 0, 0, 0, 0, 1, 2];
    let mut src = ByteSource::new(data);
    assert_eq!(
        Vec::<u8>::from_bytes(&mut src),
        Err(TranscodeError::UnexpectedEnd)
    );
}

#[test]
fn huge_length_prefix_fails_without_exhausting_memory() {
    let data: Vec<u8> = vec![0xFF, 0xFF, 0xFF, 0xFF, 0xFF, 0xFF, 0xFF, 0xFF];
    let mut src = ByteSource::new(data);
    assert!(Vec::<u8>::from_bytes(&mut src).is_err());
}

#[test]
fn nested_containers_round_trip() {
    let value: Vec<Vec<u16>> = vec![vec![], vec![1], vec![2, 3]];
    let (decoded, written, consumed) = transcode_cycle(&value).unwrap();
    assert_eq!(decoded, value);
    assert_eq!(written, consumed);
}
