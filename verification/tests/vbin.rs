use zipvoice_rs::vbin::{VbinError, parse_vbin};

fn tensor(name: &[u8], dims: &[u32], values: &[f32]) -> Vec<u8> {
    let mut out = Vec::new();
    out.extend_from_slice(&(name.len() as u16).to_le_bytes());
    out.extend_from_slice(name);
    out.push(dims.len() as u8);
    for d in dims {
        out.extend_from_slice(&d.to_le_bytes());
    }
    out.extend_from_slice(&(values.len() as u64).to_le_bytes());
    for v in values {
        out.extend_from_slice(&v.to_le_bytes());
    }
    out
}

fn file(tensors: &[Vec<u8>]) -> Vec<u8> {
    let mut out = b"VOCOSRS1".to_vec();
    out.extend_from_slice(&(tensors.len() as u32).to_le_bytes());
    for t in tensors {
        out.extend_from_slice(t);
    }
    out
}

#[test]
fn vbin_reads_tensors_in_order() {
    let bytes = file(&[tensor(b"a.weight", &[2], &[1.5, -2.0]), tensor(b"b", &[], &[])]);
    let tensors = parse_vbin(&bytes).unwrap();
    assert_eq!(tensors.len(), 2);
    assert_eq!(tensors[0].name, "a.weight");
    let values: Vec<f32> = tensors[0].data_bits.iter().map(|b| f32::from_bits(*b)).collect();
    assert_eq!(values, vec![1.5, -2.0]);
    assert_eq!(tensors[1].name, "b");
    assert!(tensors[1].data_bits.is_empty());
}

#[test]
fn vbin_ignores_trailing_bytes() {
    let mut bytes = file(&[tensor("é".as_bytes(), &[1, 1], &[3.0])]);
    bytes.extend_from_slice(&[1, 2, 3]);
    let tensors = parse_vbin(&bytes).unwrap();
    assert_eq!(tensors[0].name, "é");
    assert_eq!(tensors[0].data_bits, vec![3.0_f32.to_bits()]);
}

#[test]
fn vbin_rejects_bad_magic() {
    let mut bytes = file(&[]);
    bytes[0] = b'X';
    assert_eq!(parse_vbin(&bytes).err(), Some(VbinError::BadMagic));
}

#[test]
fn vbin_rejects_truncated_files() {
    assert_eq!(parse_vbin(b"VOCO").err(), Some(VbinError::Truncated));
    assert_eq!(parse_vbin(b"VOCOSRS1\x01").err(), Some(VbinError::Truncated));
    let bytes = file(&[tensor(b"a", &[], &[1.0, 2.0])]);
    assert_eq!(parse_vbin(&bytes[..bytes.len() - 1]).err(), Some(VbinError::Truncated));
    let mut bytes = file(&[]);
    bytes[8] = 1;
    assert_eq!(parse_vbin(&bytes).err(), Some(VbinError::Truncated));
}

#[test]
fn vbin_rejects_non_utf8_name() {
    let bytes = file(&[tensor(&[0xff, 0xfe], &[], &[])]);
    assert_eq!(parse_vbin(&bytes).err(), Some(VbinError::NonUtf8Name));
}

#[test]
fn vbin_rejects_huge_value_count() {
    let mut t = Vec::new();
    t.extend_from_slice(&1u16.to_le_bytes());
    t.push(b'a');
    t.push(0);
    t.extend_from_slice(&u64::MAX.to_le_bytes());
    let bytes = file(&[t]);
    assert_eq!(parse_vbin(&bytes).err(), Some(VbinError::Truncated));
}
