use vstd::prelude::*;
use vstd::string::*;
use crate::text;

verus! {

broadcast use vstd::string::group_string_axioms;

/// The counter of the window with Increment, Decrement and Reset buttons.
pub struct Counter {
    pub count: i32,
}

impl Counter {
    /// A counter at zero.
    pub fn new() -> (r: Self)
        ensures
            r.count == 0,
    {
        Counter { count: 0 }
    }

    /// The Increment button: one more.
    pub fn increment(&mut self)
        requires
            old(self).count < i32::MAX,
        ensures
            final(self).count == old(self).count + 1,
    {
        self.count = self.count + 1;
    }

    /// The Decrement button: one less.
    pub fn decrement(&mut self)
        requires
            old(self).count > i32::MIN,
        ensures
            final(self).count == old(self).count - 1,
    {
        self.count = self.count - 1;
    }

    /// The Reset button: back to zero.
    pub fn reset(&mut self)
        ensures
            final(self).count == 0,
    {
        self.count = 0;
    }

    /// The text shown above the buttons: `Count: <count>`.
    pub fn label(&self) -> (r: String)
        ensures
            r@ == "Count: "@ + text::signed_decimal(self.count as int),
    {
        let mut s = "Count: ".to_owned();
        let n = text::i32_to_decimal(self.count);
        s.append(n.as_str());
        s
    }
}

/// The state of the window with a `+1` button under a number.
pub struct App {
    pub counter: i32,
}

impl App {
    /// The window as it starts: at zero.
    pub fn new() -> (r: Self)
        ensures
            r.counter == 0,
    {
        App { counter: 0 }
    }

    /// The `+1` button was clicked: the counter goes up by one, and the
    /// returned text is what the number label shows now.
    pub fn on_plus_clicked(&mut self) -> (label: String)
        requires
            old(self).counter < i32::MAX,
        ensures
            final(self).counter == old(self).counter + 1,
            label@ == text::signed_decimal(final(self).counter as int),
    {
        self.counter = self.counter + 1;
        text::i32_to_decimal(self.counter)
    }
}

} // verus!
