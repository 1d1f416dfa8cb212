use nametag::util::{Cursor, NametagIterExt};

#[test]
fn drain_while() {
    let mut init = Cursor::new(vec![1, 2, 3, 4, 5]);
    let drained = init.drain_while(|x| x < &3);
    assert_eq!(vec![1, 2], drained);
    assert_eq!(vec![3, 4, 5], init.collect());
}

#[test]
fn drain_while_can_take_everything_or_nothing() {
    let mut all = Cursor::new(vec![1, 2]);
    assert_eq!(vec![1, 2], all.drain_while(|_| true));
    assert!(all.collect().is_empty());

    let mut none = Cursor::new(vec![1, 2]);
    assert!(none.drain_while(|_| false).is_empty());
    assert_eq!(vec![1, 2], none.collect());
}
