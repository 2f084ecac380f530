//! The expense record itself, the fixed category vocabulary offered at
//! entry time, and the validating constructor behind the interactive
//! entry flow.

use vstd::prelude::*;
use crate::error::SemError;
use crate::money::{parse_amount, spec_parse_amount, valid_amount};
use crate::text::str_to_chars;

verus! {

/// The mathematical content of one expense record.
pub struct ExpenseView {
    pub date: Seq<char>,
    pub amount: int,
    pub category: Seq<char>,
    pub notes: Seq<char>,
}

/// One recorded transaction. The amount is held in hundredths of the
/// currency unit; the date is kept as the text the operator supplied.
#[derive(Debug)]
pub struct Expense {
    pub date: String,
    pub amount: i64,
    pub category: String,
    pub notes: String,
}

impl View for Expense {
    type V = ExpenseView;

    open spec fn view(&self) -> ExpenseView {
        ExpenseView {
            date: self.date@,
            amount: self.amount as int,
            category: self.category@,
            notes: self.notes@,
        }
    }
}

impl Clone for Expense {
    /// A clone carries exactly the same record.
    fn clone(&self) -> (r: Self)
        ensures
            r@ == self@,
    {
        Expense {
            date: self.date.clone(),
            amount: self.amount,
            category: self.category.clone(),
            notes: self.notes.clone(),
        }
    }
}

/// Text that can stand as a store field: free of line breaks.
pub open spec fn csv_ok(s: Seq<char>) -> bool {
    forall|i: int| 0 <= i < s.len() ==> s[i] != '\n' && s[i] != '\r'
}

/// A record the store accepts: bounded amount, line-break-free fields.
pub open spec fn expense_wf(e: ExpenseView) -> bool {
    &&& valid_amount(e.amount)
    &&& csv_ok(e.date)
    &&& csv_ok(e.category)
    &&& csv_ok(e.notes)
}

/// The fixed vocabulary offered by the entry-time category picker.
/// Aggregation is not restricted to it: the store keeps plain text.
#[derive(Clone, Copy, PartialEq, Eq, Structural, Debug)]
pub enum Categories {
    Fashion,
    Food,
    Car,
    Misc,
    Groceries,
    Housing,
}

/// The text label of a category.
pub open spec fn category_label_seq(c: Categories) -> Seq<char> {
    match c {
        Categories::Fashion => "Fashion"@,
        Categories::Food => "Food"@,
        Categories::Car => "Car"@,
        Categories::Misc => "Misc"@,
        Categories::Groceries => "Groceries"@,
        Categories::Housing => "Housing"@,
    }
}

/// The category at a picker position, in the fixed display order.
pub open spec fn category_at(i: int) -> Categories {
    if i == 0 {
        Categories::Fashion
    } else if i == 1 {
        Categories::Food
    } else if i == 2 {
        Categories::Car
    } else if i == 3 {
        Categories::Misc
    } else if i == 4 {
        Categories::Groceries
    } else {
        Categories::Housing
    }
}

/// Category labels are store-safe text.
pub proof fn lemma_category_labels_ok()
    ensures
        forall|c: Categories| #[trigger] csv_ok(category_label_seq(c)),
{
    reveal_strlit("Fashion");
    reveal_strlit("Food");
    reveal_strlit("Car");
    reveal_strlit("Misc");
    reveal_strlit("Groceries");
    reveal_strlit("Housing");
    assert forall|c: Categories| #[trigger] csv_ok(category_label_seq(c)) by {
        match c {
            Categories::Fashion => assert(csv_ok("Fashion"@)),
            Categories::Food => assert(csv_ok("Food"@)),
            Categories::Car => assert(csv_ok("Car"@)),
            Categories::Misc => assert(csv_ok("Misc"@)),
            Categories::Groceries => assert(csv_ok("Groceries"@)),
            Categories::Housing => assert(csv_ok("Housing"@)),
        }
    }
}

impl Categories {
    /// The text label of this category.
    pub fn label(&self) -> (s: String)
        ensures
            s@ == category_label_seq(*self),
    {
        match self {
            Categories::Fashion => "Fashion".to_owned(),
            Categories::Food => "Food".to_owned(),
            Categories::Car => "Car".to_owned(),
            Categories::Misc => "Misc".to_owned(),
            Categories::Groceries => "Groceries".to_owned(),
            Categories::Housing => "Housing".to_owned(),
        }
    }
}

/// The category at a picker position.
pub fn category_of_index(i: usize) -> (c: Categories)
    requires
        i < 6,
    ensures
        c == category_at(i as int),
{
    if i == 0 {
        Categories::Fashion
    } else if i == 1 {
        Categories::Food
    } else if i == 2 {
        Categories::Car
    } else if i == 3 {
        Categories::Misc
    } else if i == 4 {
        Categories::Groceries
    } else {
        Categories::Housing
    }
}

/// The six labels, in the order the picker offers them.
pub fn category_labels() -> (v: Vec<String>)
    ensures
        v@.len() == 6,
        forall|i: int| 0 <= i < 6 ==> v@[i]@ == category_label_seq(category_at(i)),
{
    let mut v: Vec<String> = Vec::new();
    v.push("Fashion".to_owned());
    v.push("Food".to_owned());
    v.push("Car".to_owned());
    v.push("Misc".to_owned());
    v.push("Groceries".to_owned());
    v.push("Housing".to_owned());
    v
}

/// Whether `s` is store-safe text, free of line breaks.
pub fn csv_ok_check(s: &str) -> (r: bool)
    ensures
        r == csv_ok(s@),
{
    let chars = str_to_chars(s);
    let mut i: usize = 0;
    while i < chars.len()
        invariant
            i <= chars@.len(),
            chars@ == s@,
            forall|j: int| 0 <= j < i ==> s@[j] != '\n' && s@[j] != '\r',
        decreases chars@.len() - i,
    {
        let c = chars[i];
        if c == '\n' || c == '\r' {
            return false;
        }
        i = i + 1;
    }
    true
}

/// Builds one expense record from the operator's answers: the date text
/// as given, the amount text parsed into hundredths, the picked
/// category's label, and the notes text as given. Fails with
/// `InvalidInput` exactly when the amount text does not parse, the
/// picker position is out of range, or a text field holds a line break.
pub fn build_expense(date: String, amount_text: &str, category_index: usize, notes: String) -> (r:
    Result<Expense, SemError>)
    ensures
        match r {
            Ok(e) => {
                &&& spec_parse_amount(amount_text@) == Some(e.amount as int)
                &&& category_index < 6
                &&& csv_ok(date@)
                &&& csv_ok(notes@)
                &&& e@.date == date@
                &&& e@.category == category_label_seq(category_at(category_index as int))
                &&& e@.notes == notes@
                &&& expense_wf(e@)
            },
            Err(err) => {
                &&& err == SemError::InvalidInput
                &&& (spec_parse_amount(amount_text@) is None || category_index >= 6 || !csv_ok(
                    date@,
                ) || !csv_ok(notes@))
            },
        },
{
    let chars = str_to_chars(amount_text);
    let amount = match parse_amount(chars.as_slice()) {
        Some(v) => v,
        None => { return Err(SemError::InvalidInput) },
    };
    if category_index >= 6 {
        return Err(SemError::InvalidInput);
    }
    if !csv_ok_check(date.as_str()) || !csv_ok_check(notes.as_str()) {
        return Err(SemError::InvalidInput);
    }
    let category = category_of_index(category_index).label();
    proof {
        lemma_category_labels_ok();
    }
    Ok(Expense { date, amount, category, notes })
}

} // verus!
