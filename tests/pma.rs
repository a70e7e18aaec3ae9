use ares::snapshot::pma::{Pma, RootState};
use ares::noun::Noun;

#[test]
fn new_store_holds_zero() {
    let p = Pma::new(String::from("/tmp/snap"));
    assert_eq!(p.path(), "/tmp/snap");
    assert_eq!(p.noun().as_direct(), Some(0));
}

#[test]
fn save_records_noun() {
    let mut p = Pma::new(String::from("dir"));
    p.save(&Noun::direct(5));
    assert_eq!(p.noun().as_direct(), Some(5));
    let r = RootState { epoch: 1, event: 2, root: 3 };
    assert_eq!(r.epoch + r.event + r.root, 6);
}
