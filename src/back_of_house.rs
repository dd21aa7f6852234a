use vstd::prelude::*;

verus! {

/// Calls a sibling by a bare name and a function of the parent module
/// through `super`.
fn fix_incorrect_order() {
    cook_order();
    super::deliver_order();
}

fn cook_order() {
}

/// A breakfast whose toast the guest picks; the fruit follows the season.
pub struct Breakfast {
    pub toast: String,
    seasonal_fruit: String,
}

impl Breakfast {
    /// The toast the guest chose.
    pub closed spec fn toast_choice(&self) -> Seq<char> {
        self.toast@
    }

    /// The fruit of the season, which callers outside this module cannot set.
    pub closed spec fn fruit(&self) -> Seq<char> {
        self.seasonal_fruit@
    }

    /// The summer breakfast: the chosen toast with peaches.
    pub fn summer(toast: &str) -> (r: Breakfast)
        ensures
            r.toast_choice() == toast@,
            r.fruit() == "peaches"@,
    {
        Breakfast { toast: toast.to_owned(), seasonal_fruit: "peaches".to_owned() }
    }

    /// The fruit of the season.
    pub fn seasonal_fruit(&self) -> (r: &str)
        ensures
            r@ == self.fruit(),
    {
        self.seasonal_fruit.as_str()
    }
}

} // verus!
