use zhc::erasable::DeadOrAlive;

#[test]
fn live_and_erased_states() {
    let live = DeadOrAlive::Live(5u32);
    let erased = DeadOrAlive::Erased(7u32);
    assert!(live.is_live());
    assert!(!live.is_erased());
    assert!(erased.is_erased());
    assert!(!erased.is_live());
    assert_eq!(live.as_ref(), DeadOrAlive::Live(&5));
    assert_eq!(erased.as_ref(), DeadOrAlive::Erased(&7));
    assert_eq!(live.unwrap(), 5);
    assert_eq!(erased.unwrap_erased(), 7);
}

#[test]
fn as_mut_writes_through_and_keeps_state() {
    let mut cell = DeadOrAlive::Erased(1u8);
    if let DeadOrAlive::Erased(v) = cell.as_mut() {
        *v = 9;
    }
    assert_eq!(cell, DeadOrAlive::Erased(9));
    assert_eq!(cell.unjail(), 9);
    assert_eq!(DeadOrAlive::Live(3i64).unjail(), 3);
}

#[test]
fn erase_keeps_the_value() {
    let cell = DeadOrAlive::Live(String::from("kept"));
    let cell = cell.erase();
    assert!(cell.is_erased());
    assert_eq!(cell.as_ref(), DeadOrAlive::Erased(&String::from("kept")));
    let again = cell.erase();
    assert_eq!(again.unwrap_erased(), "kept");
}
