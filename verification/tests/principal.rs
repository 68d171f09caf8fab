use fleet_coordinator::principal::IdentityError;
use fleet_coordinator::types::Principal;

#[test]
fn from_text_decodes_the_bytes() {
    let p = Principal::from_text("rturd-qaaaa-aaaaf-aabaq-cai").unwrap();
    assert_eq!(p.to_vec(), vec![0, 0, 0, 0, 0, 160, 0, 65, 1, 1]);
    let q = Principal::from_text("2chl6-4hpzw-vqaaa-aaaaa-c").unwrap();
    assert_eq!(q.to_vec(), vec![239, 205, 171, 0, 0, 0, 0, 0, 1]);
}

#[test]
fn from_text_rejects_what_is_no_identity() {
    assert_eq!(Principal::from_text("not a principal"), Err(IdentityError::InvalidText));
    assert_eq!(
        Principal::from_text("rturd-qaaaa-aaaaf-aabaq-caa"),
        Err(IdentityError::InvalidText)
    );
    assert_eq!(Principal::from_text("rturdqaaaaaaaafaabaqcai"), Err(IdentityError::InvalidText));
}

#[test]
fn anonymous_is_the_byte_four() {
    assert_eq!(Principal::anonymous().to_vec(), vec![4u8]);
    assert_eq!(Principal::from_text("2vxsx-fae"), Ok(Principal::anonymous()));
}

#[test]
fn management_canister_has_no_bytes() {
    assert_eq!(Principal::management_canister().to_vec(), Vec::<u8>::new());
    assert_eq!(Principal::from_text("aaaaa-aa"), Ok(Principal::management_canister()));
}

#[test]
fn from_slice_takes_up_to_29_bytes() {
    let bytes = [7u8; 30];
    assert!(Principal::from_slice(&bytes[..29]).is_some());
    assert_eq!(Principal::from_slice(&bytes), None);
    assert_eq!(Principal::from_slice(&bytes[..29]).unwrap().len(), 29);
}

#[test]
fn identities_are_equal_when_their_bytes_are() {
    let a = Principal::from_slice(&[1, 2, 3]).unwrap();
    let b = Principal::from_slice(&[1, 2, 3]).unwrap();
    let c = Principal::from_slice(&[1, 2, 3, 0]).unwrap();
    assert_eq!(a, b);
    assert_ne!(a, c);
    assert_eq!(a.to_vec(), vec![1, 2, 3]);
}
