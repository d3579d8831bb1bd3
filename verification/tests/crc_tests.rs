use crc_forge::crc::{le_bytes, CRC32};
use crc_forge::crc_model::CRC32Properties;
use crc_forge::error::Error;
use crc_forge::math::{Polynomial, PolynomialRepr};

/// The table of the CRC32 of zip and Ethernet, as published.
const CANONICAL_TABLE: [u32; 256] = [
    0x00000000, 0x77073096, 0xee0e612c, 0x990951ba,
    0x076dc419, 0x706af48f, 0xe963a535, 0x9e6495a3,
    0x0edb8832, 0x79dcb8a4, 0xe0d5e91e, 0x97d2d988,
    0x09b64c2b, 0x7eb17cbd, 0xe7b82d07, 0x90bf1d91,
    0x1db71064, 0x6ab020f2, 0xf3b97148, 0x84be41de,
    0x1adad47d, 0x6ddde4eb, 0xf4d4b551, 0x83d385c7,
    0x136c9856, 0x646ba8c0, 0xfd62f97a, 0x8a65c9ec,
    0x14015c4f, 0x63066cd9, 0xfa0f3d63, 0x8d080df5,
    0x3b6e20c8, 0x4c69105e, 0xd56041e4, 0xa2677172,
    0x3c03e4d1, 0x4b04d447, 0xd20d85fd, 0xa50ab56b,
    0x35b5a8fa, 0x42b2986c, 0xdbbbc9d6, 0xacbcf940,
    0x32d86ce3, 0x45df5c75, 0xdcd60dcf, 0xabd13d59,
    0x26d930ac, 0x51de003a, 0xc8d75180, 0xbfd06116,
    0x21b4f4b5, 0x56b3c423, 0xcfba9599, 0xb8bda50f,
    0x2802b89e, 0x5f058808, 0xc60cd9b2, 0xb10be924,
    0x2f6f7c87, 0x58684c11, 0xc1611dab, 0xb6662d3d,
    0x76dc4190, 0x01db7106, 0x98d220bc, 0xefd5102a,
    0x71b18589, 0x06b6b51f, 0x9fbfe4a5, 0xe8b8d433,
    0x7807c9a2, 0x0f00f934, 0x9609a88e, 0xe10e9818,
    0x7f6a0dbb, 0x086d3d2d, 0x91646c97, 0xe6635c01,
    0x6b6b51f4, 0x1c6c6162, 0x856530d8, 0xf262004e,
    0x6c0695ed, 0x1b01a57b, 0x8208f4c1, 0xf50fc457,
    0x65b0d9c6, 0x12b7e950, 0x8bbeb8ea, 0xfcb9887c,
    0x62dd1ddf, 0x15da2d49, 0x8cd37cf3, 0xfbd44c65,
    0x4db26158, 0x3ab551ce, 0xa3bc0074, 0xd4bb30e2,
    0x4adfa541, 0x3dd895d7, 0xa4d1c46d, 0xd3d6f4fb,
    0x4369e96a, 0x346ed9fc, 0xad678846, 0xda60b8d0,
    0x44042d73, 0x33031de5, 0xaa0a4c5f, 0xdd0d7cc9,
    0x5005713c, 0x270241aa, 0xbe0b1010, 0xc90c2086,
    0x5768b525, 0x206f85b3, 0xb966d409, 0xce61e49f,
    0x5edef90e, 0x29d9c998, 0xb0d09822, 0xc7d7a8b4,
    0x59b33d17, 0x2eb40d81, 0xb7bd5c3b, 0xc0ba6cad,
    0xedb88320, 0x9abfb3b6, 0x03b6e20c, 0x74b1d29a,
    0xead54739, 0x9dd277af, 0x04db2615, 0x73dc1683,
    0xe3630b12, 0x94643b84, 0x0d6d6a3e, 0x7a6a5aa8,
    0xe40ecf0b, 0x9309ff9d, 0x0a00ae27, 0x7d079eb1,
    0xf00f9344, 0x8708a3d2, 0x1e01f268, 0x6906c2fe,
    0xf762575d, 0x806567cb, 0x196c3671, 0x6e6b06e7,
    0xfed41b76, 0x89d32be0, 0x10da7a5a, 0x67dd4acc,
    0xf9b9df6f, 0x8ebeeff9, 0x17b7be43, 0x60b08ed5,
    0xd6d6a3e8, 0xa1d1937e, 0x38d8c2c4, 0x4fdff252,
    0xd1bb67f1, 0xa6bc5767, 0x3fb506dd, 0x48b2364b,
    0xd80d2bda, 0xaf0a1b4c, 0x36034af6, 0x41047a60,
    0xdf60efc3, 0xa867df55, 0x316e8eef, 0x4669be79,
    0xcb61b38c, 0xbc66831a, 0x256fd2a0, 0x5268e236,
    0xcc0c7795, 0xbb0b4703, 0x220216b9, 0x5505262f,
    0xc5ba3bbe, 0xb2bd0b28, 0x2bb45a92, 0x5cb36a04,
    0xc2d7ffa7, 0xb5d0cf31, 0x2cd99e8b, 0x5bdeae1d,
    0x9b64c2b0, 0xec63f226, 0x756aa39c, 0x026d930a,
    0x9c0906a9, 0xeb0e363f, 0x72076785, 0x05005713,
    0x95bf4a82, 0xe2b87a14, 0x7bb12bae, 0x0cb61b38,
    0x92d28e9b, 0xe5d5be0d, 0x7cdcefb7, 0x0bdbdf21,
    0x86d3d2d4, 0xf1d4e242, 0x68ddb3f8, 0x1fda836e,
    0x81be16cd, 0xf6b9265b, 0x6fb077e1, 0x18b74777,
    0x88085ae6, 0xff0f6a70, 0x66063bca, 0x11010b5c,
    0x8f659eff, 0xf862ae69, 0x616bffd3, 0x166ccf45,
    0xa00ae278, 0xd70dd2ee, 0x4e048354, 0x3903b3c2,
    0xa7672661, 0xd06016f7, 0x4969474d, 0x3e6e77db,
    0xaed16a4a, 0xd9d65adc, 0x40df0b66, 0x37d83bf0,
    0xa9bcae53, 0xdebb9ec5, 0x47b2cf7f, 0x30b5ffe9,
    0xbdbdf21c, 0xcabac28a, 0x53b39330, 0x24b4a3a6,
    0xbad03605, 0xcdd70693, 0x54de5729, 0x23d967bf,
    0xb3667a2e, 0xc4614ab8, 0x5d681b02, 0x2a6f2b94,
    0xb40bbe37, 0xc30c8ea1, 0x5a05df1b, 0x2d02ef8d,
];

fn standard() -> CRC32 {
    CRC32::new(CRC32Properties::default()).unwrap()
}

fn engine(g: u32, init_xor: u32, final_xor: u32) -> CRC32 {
    CRC32::new(CRC32Properties { g, init_xor, final_xor }).unwrap()
}

fn spliced(data: &[u8], offset: usize, patch: [u8; 4]) -> Vec<u8> {
    let at = data.len() - offset;
    let mut out = data[..at].to_vec();
    out.extend_from_slice(&patch);
    out.extend_from_slice(&data[at..]);
    out
}

fn sample(len: usize, seed: u32) -> Vec<u8> {
    let mut state = seed;
    let mut out = Vec::new();
    for _ in 0..len {
        state = state.wrapping_mul(1664525).wrapping_add(1013904223);
        out.push((state >> 24) as u8);
    }
    out
}

#[test]
fn default_properties_are_the_standard_crc32() {
    let props = CRC32Properties::default();
    assert_eq!(props.g, 0x04c11db7);
    assert_eq!(props.init_xor, 0xffffffff);
    assert_eq!(props.final_xor, 0xffffffff);
    assert!(standard().props() == props);
}

#[test]
fn checksum_of_empty_message() {
    assert_eq!(standard().checksum(b""), 0);
}

#[test]
fn checksum_of_single_letter() {
    assert_eq!(standard().checksum(b"a"), 0xe8b7be43);
}

#[test]
fn checksum_of_hello_world() {
    assert_eq!(standard().checksum(b"hello, world!"), 0x58988d13);
}

#[test]
fn checksum_of_check_string() {
    assert_eq!(standard().checksum(b"123456789"), 0xcbf43926);
    assert_eq!(engine(0x1edc6f41, 0xffffffff, 0xffffffff).checksum(b"123456789"), 0xe3069283);
    assert_eq!(engine(0x04c11db7, 0, 0xffffffff).checksum(b"123456789"), 0xd202d277);
}

#[test]
fn checksum_of_short_messages() {
    let crc = standard();
    assert_eq!(crc.checksum(b"ab"), 0x9e83486d);
    assert_eq!(crc.checksum(b"abc"), 0x352441c2);
    assert_eq!(crc.checksum(b"abcd"), 0xed82cd11);
    assert_eq!(crc.checksum(b"abcde"), 0x8587d865);
    assert_eq!(crc.checksum(&[0, 0, 0, 0]), 0x2144df1c);
}

#[test]
fn table_is_the_canonical_table() {
    let crc = standard();
    let table = crc.table();
    assert_eq!(table.len(), 256);
    for i in 0..256 {
        assert_eq!(table[i], CANONICAL_TABLE[i]);
    }
}

#[test]
fn table_steps_match_the_bit_serial_algorithm() {
    // One byte at a time through the table gives what eight single bits give.
    let crc = standard();
    let data = sample(57, 7);
    let mut reg: u32 = 0xffffffff;
    for b in &data {
        reg ^= *b as u32;
        for _ in 0..8 {
            reg = if reg & 1 == 1 { (reg >> 1) ^ 0xedb88320 } else { reg >> 1 };
        }
    }
    assert_eq!(crc.checksum(&data), reg ^ 0xffffffff);
}

#[test]
fn xn_inv_of_the_standard_generator() {
    assert!(standard().xn_inv() == Polynomial::from(PolynomialRepr::Normal(0xcbf1acdau64)));
}

#[test]
fn engine_needs_a_generator_with_constant_term() {
    let res = CRC32::new(CRC32Properties { g: 0x04c11db6, init_xor: 0, final_xor: 0 });
    assert!(matches!(res, Err(Error::NonInvertibleError)));
    let res = CRC32::new(CRC32Properties { g: 0, init_xor: 0, final_xor: 0 });
    assert!(matches!(res, Err(Error::NonInvertibleError)));
    assert!(CRC32::new(CRC32Properties { g: 1, init_xor: 0, final_xor: 0 }).is_ok());
}

#[test]
fn fast_rem_of_nothing_is_the_register() {
    let crc = standard();
    assert_eq!(crc.fast_rem(b"", 0x12345678), 0x12345678);
    assert_eq!(crc.fast_rem(b"", 0), 0);
}

#[test]
fn fast_rem_is_the_raw_remainder() {
    let crc = standard();
    // one zero byte after the register 1: the table entry of the byte 1
    assert_eq!(crc.fast_rem(&[0], 1), 0x77073096);
    // four bytes from an empty register fill it, lowest byte first
    assert_eq!(crc.fast_rem(&[0x78, 0x56, 0x34, 0x12], 0), 0x12345678);
    // the checksum is the raw remainder between the initial and the final value
    let data = b"hello, world!";
    let mut padded = data[4..].to_vec();
    padded.extend_from_slice(&[0, 0, 0, 0]);
    let first = u32::from_le_bytes([data[0], data[1], data[2], data[3]]);
    assert_eq!(crc.fast_rem(&padded, first ^ 0xffffffff) ^ 0xffffffff, 0x58988d13);
}

#[test]
fn le_bytes_are_lowest_byte_first() {
    assert_eq!(le_bytes(0x12345678), [0x78, 0x56, 0x34, 0x12]);
    assert_eq!(le_bytes(0), [0, 0, 0, 0]);
    assert_eq!(le_bytes(0xff000001), [0x01, 0x00, 0x00, 0xff]);
}

#[test]
fn suffix_reaches_the_target() {
    let crc = standard();
    for (len, target) in [(0usize, 0u32), (1, 0xdeadbeef), (3, 0xffffffff), (4, 1), (5, 0x12345678), (64, 0xcafebabe)] {
        let data = sample(len, target);
        let suffix = crc.compute_suffix(&data, target);
        let mut patched = data.clone();
        patched.extend_from_slice(&suffix);
        assert_eq!(crc.checksum(&patched), target);
    }
}

#[test]
fn suffix_exact_values() {
    let crc = standard();
    assert_eq!(crc.compute_suffix(b"", 0), [0x9d, 0x0a, 0xd9, 0x6d]);
    assert_eq!(crc.compute_suffix(b"abc", 0x352441c2), [0xe4, 0x50, 0x2c, 0x59]);
}

#[test]
fn suffix_for_the_current_checksum_keeps_it() {
    let crc = standard();
    for len in [0usize, 1, 2, 7, 33] {
        let data = sample(len, 99);
        let current = crc.checksum(&data);
        let suffix = crc.compute_suffix(&data, current);
        let mut patched = data.clone();
        patched.extend_from_slice(&suffix);
        assert_eq!(crc.checksum(&patched), current);
    }
}

#[test]
fn inserted_reaches_the_target_at_every_offset() {
    let crc = standard();
    let data = sample(23, 5);
    for offset in 0..=data.len() {
        let target = 0x01020304u32.wrapping_mul(offset as u32 + 1);
        let patch = crc.compute_inserted(&data, offset, target).unwrap();
        assert_eq!(crc.checksum(&spliced(&data, offset, patch)), target);
    }
}

#[test]
fn inserted_exact_values() {
    let crc = standard();
    assert_eq!(crc.compute_inserted(b"abc", 0, 0x352441c2).unwrap(), [0xe4, 0x50, 0x2c, 0x59]);
    let patch = crc.compute_inserted(b"hello, world!", 6, 0xdeadbeef).unwrap();
    assert_eq!(patch, [0x79, 0xf7, 0xb4, 0x68]);
    assert_eq!(crc.checksum(&spliced(b"hello, world!", 6, patch)), 0xdeadbeef);
}

#[test]
fn inserted_at_the_end_is_the_suffix() {
    let crc = standard();
    for len in [0usize, 1, 4, 19] {
        let data = sample(len, 3);
        let patch = crc.compute_inserted(&data, 0, 0xabcdef01).unwrap();
        assert_eq!(patch, crc.compute_suffix(&data, 0xabcdef01));
    }
}

#[test]
fn inserted_at_the_start_is_a_prefix() {
    let crc = standard();
    let data = sample(12, 11);
    let patch = crc.compute_inserted(&data, data.len(), 0x0badf00d).unwrap();
    let mut patched = patch.to_vec();
    patched.extend_from_slice(&data);
    assert_eq!(crc.checksum(&patched), 0x0badf00d);
}

#[test]
fn inserted_beyond_the_data_is_out_of_bounds() {
    let crc = standard();
    assert!(matches!(crc.compute_inserted(b"abc", 4, 0), Err(Error::OutOfBoundsError)));
    assert!(matches!(crc.compute_inserted(b"", 1, 0), Err(Error::OutOfBoundsError)));
    assert!(matches!(crc.compute_inserted(b"abc", usize::MAX, 0), Err(Error::OutOfBoundsError)));
    assert!(crc.compute_inserted(b"abc", 3, 0).is_ok());
}

#[test]
fn forging_with_other_parameters() {
    for (g, init_xor, final_xor) in [
        (0x1edc6f41u32, 0xffffffffu32, 0xffffffffu32),
        (0x04c11db7, 0, 0),
        (0x04c11db7, 0x12345678, 0x9abcdef0),
        (0x814141ab, 0, 0),
        (0x00000001, 0xffffffff, 0),
    ] {
        let crc = engine(g, init_xor, final_xor);
        for len in [0usize, 2, 9, 40] {
            let data = sample(len, g);
            let target = g ^ 0x5a5a5a5a;
            let suffix = crc.compute_suffix(&data, target);
            assert_eq!(crc.checksum(&spliced(&data, 0, suffix)), target);
            for offset in [0, len / 2, len] {
                let patch = crc.compute_inserted(&data, offset, target).unwrap();
                assert_eq!(crc.checksum(&spliced(&data, offset, patch)), target);
            }
        }
    }
}

#[test]
fn only_one_suffix_reaches_a_target() {
    // Every other run of four bytes with the same low bytes gives another checksum.
    let crc = standard();
    let data = b"only one";
    let target = 0x600dcafe;
    let suffix = crc.compute_suffix(data, target);
    for top in 0..=255u8 {
        let mut other = suffix;
        other[3] = top;
        let reached = crc.checksum(&spliced(data, 0, other));
        assert_eq!(reached == target, other == suffix);
    }
}

#[test]
fn error_variants_print_their_names() {
    assert_eq!(format!("{:?}", Error::EncodingError), "EncodingError");
    assert_eq!(format!("{:?}", Error::NonInvertibleError), "NonInvertibleError");
    assert_eq!(format!("{:?}", Error::OutOfBoundsError), "OutOfBoundsError");
    assert_eq!(format!("{:?}", Error::OverflowError(None)), "OverflowError(None)");
}
