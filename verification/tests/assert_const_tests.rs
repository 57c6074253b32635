use tpt_formal::assert_const::{Const, IsTrue, Same};

#[test]
fn is_true_holds_for_true() {
    fn requires_true<B: IsTrue>() {}
    requires_true::<Const<true>>();
    assert!(<Const<true> as IsTrue>::VALUE);
}

#[test]
fn same_requires_type_equality() {
    fn requires_same<T, U>()
    where
        T: Same<Output = U>,
    {
    }
    requires_same::<u32, u32>();
}
