//! Writing a call tree as JSON.
//!
//! A node is written as `{"name":N,"value":V,"children":[C]}`: N is the label
//! as a JSON string, V the count in decimal digits, and C the children in
//! stored order, written the same way and separated by commas. There are no
//! other keys and no white space. The JSON string of a label comes from
//! `serde_json`; the rest is written here.

use crate::tree::{Stack, Tree};
use vstd::prelude::*;
use vstd::string::StringExecFns;

verus! {

/// Why a tree could not be written.
#[derive(Debug, Clone, Copy, PartialEq, Eq, Structural)]
pub enum EncodeError {
    /// A label has no JSON string.
    Label,
}

/// `serde_json::Error`, the error of `serde_json::to_string`. Nothing is
/// known of a value of it; it is mapped to `EncodeError` where it appears.
#[verifier::external_type_specification]
#[verifier::external_body]
pub struct ExJsonError(serde_json::Error);

/// The JSON string that `serde_json` writes for a text, quotes included, or
/// `None` where it reports an error.
pub uninterp spec fn json_string(text: Seq<char>) -> Option<Seq<char>>;

/// `serde_json::to_string` on a string slice. What it returns depends on the
/// text alone: the contract gives that result its name, `json_string`, and
/// claims nothing else of it.
#[verifier::external_body]
fn quote(text: &str) -> (r: Result<String, serde_json::Error>)
    ensures
        match r {
            Ok(quoted) => json_string(text@) == Some(quoted@),
            Err(_) => json_string(text@) is None,
        },
{
    serde_json::to_string(text)
}

/// The character of a decimal digit.
pub open spec fn digit(d: nat) -> char {
    if d == 0 {
        '0'
    } else if d == 1 {
        '1'
    } else if d == 2 {
        '2'
    } else if d == 3 {
        '3'
    } else if d == 4 {
        '4'
    } else if d == 5 {
        '5'
    } else if d == 6 {
        '6'
    } else if d == 7 {
        '7'
    } else if d == 8 {
        '8'
    } else {
        '9'
    }
}

/// A number in decimal digits, without sign or leading zeros.
pub open spec fn decimal(n: nat) -> Seq<char>
    decreases n,
{
    if n < 10 {
        seq![digit(n)]
    } else {
        decimal(n / 10).push(digit(n % 10))
    }
}

/// What stands before the children of a node: the label, already quoted,
/// and the count, under their keys, and the opening of the list.
pub open spec fn node_head(quoted: Seq<char>, value: nat) -> Seq<char> {
    "{\"name\":"@ + quoted + ",\"value\":"@ + decimal(value) + ",\"children\":["@
}

/// Whether every label of the tree has a JSON string.
pub open spec fn encodable(t: Tree) -> bool
    decreases t,
{
    &&& json_string(t.name) is Some
    &&& forall|i: int| 0 <= i < t.children.len() ==> encodable(#[trigger] t.children[i])
}

/// The JSON text of a tree whose labels all have a JSON string.
pub open spec fn text(t: Tree) -> Seq<char>
    decreases t, 1nat,
{
    node_head(json_string(t.name)->0, t.value) + list_text(t.children) + "]}"@
}

/// The JSON texts of a list of trees, separated by commas.
pub open spec fn list_text(ts: Seq<Tree>) -> Seq<char>
    decreases ts, 0nat,
{
    if ts.len() == 0 {
        Seq::empty()
    } else if ts.len() == 1 {
        text(ts[0])
    } else {
        list_text(ts.drop_last()) + ","@ + text(ts.last())
    }
}

/// What writing a tree may return: the text where every label has a JSON
/// string, and the error where one has none.
pub open spec fn json_outcome(t: Tree, r: Result<String, EncodeError>) -> bool {
    match r {
        Ok(s) => encodable(t) && s@ == text(t),
        Err(e) => !encodable(t) && e == EncodeError::Label,
    }
}

fn digit_text(d: u8) -> (s: &'static str)
    requires
        d < 10,
    ensures
        s@ == seq![digit(d as nat)],
{
    proof {
        reveal_strlit("0");
        reveal_strlit("1");
        reveal_strlit("2");
        reveal_strlit("3");
        reveal_strlit("4");
        reveal_strlit("5");
        reveal_strlit("6");
        reveal_strlit("7");
        reveal_strlit("8");
        reveal_strlit("9");
    }
    let s: &'static str = if d == 0 {
        "0"
    } else if d == 1 {
        "1"
    } else if d == 2 {
        "2"
    } else if d == 3 {
        "3"
    } else if d == 4 {
        "4"
    } else if d == 5 {
        "5"
    } else if d == 6 {
        "6"
    } else if d == 7 {
        "7"
    } else if d == 8 {
        "8"
    } else {
        "9"
    };
    assert(s@ =~= seq![digit(d as nat)]);
    s
}

/// Appends a number in decimal digits.
pub fn push_decimal(out: &mut String, value: u128)
    ensures
        final(out)@ == old(out)@ + decimal(value as nat),
    decreases value,
{
    if value >= 10 {
        push_decimal(out, value / 10);
    }
    let last: u8 = (value % 10) as u8;
    out.append(digit_text(last));
    assert(out@ =~= old(out)@ + decimal(value as nat));
}

/// Appends the head of a node: its label, given as the JSON string that it
/// was turned into, and its count.
pub fn push_node_head(out: &mut String, quoted: &str, value: u128)
    ensures
        final(out)@ == old(out)@ + node_head(quoted@, value as nat),
{
    out.append("{\"name\":");
    out.append(quoted);
    out.append(",\"value\":");
    push_decimal(out, value);
    out.append(",\"children\":[");
    assert(out@ =~= old(out)@ + node_head(quoted@, value as nat));
}

impl<'a> Stack<'a> {
    /// Appends the JSON text of this node and of all below it. On an error
    /// `out` holds what was written up to it.
    fn write_json(&self, out: &mut String) -> (r: Result<(), EncodeError>)
        ensures
            r is Ok <==> encodable(self@),
            r is Ok ==> final(out)@ == old(out)@ + text(self@),
            r is Err ==> r->Err_0 == EncodeError::Label,
        decreases self,
    {
        let quoted = match quote(self.name) {
            Ok(quoted) => quoted,
            Err(_) => {
                return Err(EncodeError::Label);
            },
        };
        push_node_head(out, quoted.as_str(), self.value);
        let ghost head = out@;
        let ghost kids = self@.children;
        let n: usize = self.children.len();
        let mut i: usize = 0;
        assert(kids.take(0) =~= Seq::<Tree>::empty());
        while i < n
            invariant
                n == self.children.len(),
                kids == self@.children,
                0 <= i <= n,
                out@ == head + list_text(kids.take(i as int)),
                forall|j: int| 0 <= j < i ==> encodable(#[trigger] kids[j]),
            decreases n - i,
        {
            if i > 0 {
                out.append(",");
            }
            let ghost sofar = out@;
            match self.children[i].write_json(out) {
                Ok(()) => {},
                Err(e) => {
                    assert(!encodable(kids[i as int]));
                    return Err(e);
                },
            }
            proof {
                let done = kids.take(i + 1);
                assert(done.drop_last() =~= kids.take(i as int));
                assert(done.last() == kids[i as int]);
                assert(done[0] == kids[0]);
                assert(out@ =~= head + list_text(done));
            }
            i += 1;
        }
        out.append("]}");
        proof {
            assert(kids.take(n as int) =~= kids);
            assert(out@ =~= old(out)@ + text(self@));
        }
        Ok(())
    }

    /// The JSON text of this node and of all below it.
    pub fn to_json(&self) -> (r: Result<String, EncodeError>)
        ensures
            json_outcome(self@, r),
    {
        let mut out = String::new();
        match self.write_json(&mut out) {
            Ok(()) => {
                assert(out@ =~= text(self@));
                Ok(out)
            },
            Err(e) => Err(e),
        }
    }
}

} // verus!
