//! Patterns in readable form.
use vstd::prelude::*;
use vstd::string::*;

use crate::pattern::{group_models, models, Pattern, PatternView};

verus! {

/// `pattern` in readable form: constants in quotes, alternatives in brackets.
pub open spec fn rendered(pattern: PatternView) -> Seq<char>
    decreases pattern,
{
    match pattern {
        PatternView::Constant(c) => "\""@ + c + "\""@,
        PatternView::Dynamic => "<dynamic>"@,
        PatternView::Alternatives(list) => "("@ + rendered_list(list, " | "@) + ")"@,
        PatternView::Concatenation(list) => rendered_list(list, " "@),
    }
}

/// The patterns of `list` in readable form, with `separator` between them.
pub open spec fn rendered_list(list: Seq<PatternView>, separator: Seq<char>) -> Seq<char>
    decreases list,
{
    if list.len() == 0 {
        Seq::empty()
    } else if list.len() == 1 {
        rendered(list[0])
    } else {
        rendered_list(list.drop_last(), separator) + separator + rendered(list.last())
    }
}

/// The patterns of `list` in readable form, with `separator` between them.
fn list_to_string(list: &Vec<Pattern>, separator: &str) -> (res: String)
    ensures
        res@ == rendered_list(models(list@), separator@),
    decreases list,
{
    let ghost all = models(list@);
    let mut res: String = String::new();
    let mut i: usize = 0;
    assert(all.take(0) =~= Seq::empty());
    while i < list.len()
        invariant
            i <= list.len(),
            all == models(list@),
            res@ == rendered_list(all.take(i as int), separator@),
        decreases list.len() - i,
    {
        broadcast use group_models;

        proof {
            assert(all.take(i + 1).drop_last() =~= all.take(i as int));
            assert(all.take(i + 1).last() == list@[i as int]@);
        }
        if i > 0 {
            res.append(separator);
        }
        let item: String = list[i].to_string();
        let ghost before = res@;
        res.append(item.as_str());
        proof {
            if i == 0 {
                assert(res@ =~= rendered(all[0]));
            }
        }
        i += 1;
    }
    assert(all.take(i as int) =~= all);
    res
}

impl Pattern {
    /// This pattern in readable form.
    pub fn to_string(&self) -> (res: String)
        ensures
            res@ == rendered(self@),
        decreases self,
    {
        let mut res: String = String::new();
        match self {
            Pattern::Constant(c) => {
                res.append("\"");
                res.append(c.as_str());
                res.append("\"");
                assert(res@ =~= "\""@ + c@ + "\""@);
            },
            Pattern::Dynamic => {
                res.append("<dynamic>");
                assert(res@ =~= "<dynamic>"@);
            },
            Pattern::Alternatives(list) => {
                let inner: String = list_to_string(list, " | ");
                res.append("(");
                res.append(inner.as_str());
                res.append(")");
                assert(res@ =~= "("@ + inner@ + ")"@);
            },
            Pattern::Concatenation(list) => {
                let inner: String = list_to_string(list, " ");
                res.append(inner.as_str());
                assert(res@ =~= inner@);
            },
        }
        res
    }
}

} // verus!
