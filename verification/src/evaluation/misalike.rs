use vstd::prelude::*;
use vstd::string::StringExecFns;

verus! {

/// The weights of an evaluator modelled on the MisaMino bot.
#[derive(Clone, Debug, Eq, PartialEq, Hash)]
pub struct Misalike {
    pub sub_name: Option<String>,
    pub in_row_transitions: i32,
    pub t_piece_in_hold: i32,
    pub i_piece_in_hold: i32,
    pub open_hole: i32,
    pub closed_hole: i32,
    pub topmost_closed_hole: i32,
}

/// The name of the evaluator: `Misalike` and a line break, followed by another line break and
/// the name of the weights when they have one.
pub open spec fn misalike_name(sub_name: Option<String>) -> Seq<char> {
    match sub_name {
        Some(extra) => "Misalike\n"@ + "\n"@ + extra@,
        None => "Misalike\n"@,
    }
}

impl Misalike {
    /// The name of the evaluator.
    pub fn name(&self) -> (n: String)
        ensures
            n@ == misalike_name(self.sub_name),
    {
        let mut s = "Misalike\n".to_string();
        match &self.sub_name {
            Some(extra) => {
                s.append("\n");
                s.append(extra.as_str());
            },
            None => {},
        }
        s
    }
}

} // verus!
