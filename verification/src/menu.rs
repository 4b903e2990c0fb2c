//! Data shapes of the canteen menu feature.  The menu involves no
//! algorithmic work; only its vocabulary lives here.
use vstd::prelude::*;

verus! {

/// One meal on offer.
#[derive(Clone, Debug)]
pub struct Meal {
    pub name: String,
    pub date: String,
    pub typ_name: String,
    pub price: String,
}

/// The payload of a menu answer: the menu is a list of dated meals.
#[derive(Clone, Debug)]
pub struct Data {
    pub qr_code: String,
    pub day_from: String,
    pub day_to: String,
    pub menue: Vec<(String, Meal)>,
    pub not_visible_days: Vec<i32>,
}

/// A menu answer from the canteen service.
#[derive(Clone, Debug)]
pub struct MenuResponse {
    pub data: Data,
}

pub ghost struct MealView {
    pub name: Seq<char>,
    pub date: Seq<char>,
    pub typ_name: Seq<char>,
    pub price: Seq<char>,
}

impl View for Meal {
    type V = MealView;

    open spec fn view(&self) -> MealView {
        MealView {
            name: self.name@,
            date: self.date@,
            typ_name: self.typ_name@,
            price: self.price@,
        }
    }
}

impl DeepView for Meal {
    type V = MealView;

    open spec fn deep_view(&self) -> MealView {
        self.view()
    }
}

} // verus!
