use screen_mirror::decode::{avcc_frame, NalAction, ParameterSets};
use screen_mirror::encode::encoded_packet;

#[test]
fn slices_wait_for_both_parameter_sets() {
    let mut p = ParameterSets::new();
    assert_eq!(p.on_nal(&[0x65, 1, 2]), NalAction::Drop);
    assert_eq!(p.on_nal(&[0x67, 0x42]), NalAction::Ignore);
    assert_eq!(p.on_nal(&[0x41, 1]), NalAction::Drop);
    assert_eq!(p.on_nal(&[0x68, 0xce]), NalAction::Rebuild);
    p.on_rebuilt(true);
    assert_eq!(p.on_nal(&[0x65, 1, 2]), NalAction::Decode);
    assert_eq!(p.on_nal(&[0x41, 1]), NalAction::Decode);
    assert_eq!(p.on_nal(&[0x06, 1]), NalAction::Ignore);
    assert_eq!(p.on_nal(&[]), NalAction::Ignore);
    // A new SPS rebuilds the session; a failed rebuild leaves none.
    assert_eq!(p.on_nal(&[0x27, 0x4d]), NalAction::Rebuild);
    p.on_rebuilt(false);
    assert_eq!(p.on_nal(&[0x65]), NalAction::Drop);
}

#[test]
fn avcc_framing_prefixes_the_length() {
    assert_eq!(avcc_frame(&[0x65, 1, 2]), vec![0, 0, 0, 3, 0x65, 1, 2]);
    assert_eq!(avcc_frame(&[]), vec![0, 0, 0, 0]);
    let big = vec![7u8; 0x1_0203];
    let f = avcc_frame(&big);
    assert_eq!(&f[..4], &[0, 1, 2, 3]);
    assert_eq!(f.len(), 4 + big.len());
}

#[test]
fn keyframes_carry_parameter_sets_first() {
    let data = [0, 0, 0, 2, 0x65, 9, 0, 0, 0, 1, 0x06];
    let ps = vec![vec![0x67, 1], vec![0x68, 2]];
    let p = encoded_packet(&data, true, ps.clone(), 4).unwrap();
    assert!(p.is_keyframe);
    assert_eq!(p.timestamp, 0);
    assert_eq!(p.data, data.to_vec());
    assert_eq!(p.nal_units, vec![vec![0x67, 1], vec![0x68, 2], vec![0x65, 9], vec![0x06]]);
    let q = encoded_packet(&data, false, ps, 4).unwrap();
    assert_eq!(q.nal_units, vec![vec![0x65, 9], vec![0x06]]);
    assert!(encoded_packet(&[], true, vec![], 4).is_none());
}
