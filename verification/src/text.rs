use vstd::prelude::*;

verus! {

/// Relies on `String::push`: appends exactly the given character.
#[verifier::external_body]
pub fn push_char(s: &mut String, c: char)
    ensures
        final(s)@ == old(s)@.push(c),
{
    s.push(c);
}

/// Relies on `String::pop`: removes and returns the last character, and does
/// nothing on an empty string.
#[verifier::external_body]
pub fn pop_char(s: &mut String) -> (r: Option<char>)
    ensures
        old(s)@.len() == 0 ==> final(s)@ == old(s)@ && r is None,
        old(s)@.len() > 0 ==> final(s)@ == old(s)@.drop_last() && r == Some(old(s)@.last()),
{
    s.pop()
}

/// What width-truncation leaves of a line: text short enough stays whole;
/// anything longer is cut to the column width, a three-dot ellipsis marker
/// taking the last three columns whenever there is room for one.
pub open spec fn truncated(s: Seq<char>, w: nat) -> Seq<char> {
    if s.len() <= w {
        s
    } else if w < 4 {
        s.subrange(0, w as int)
    } else {
        s.subrange(0, w as int - 3) + seq!['.', '.', '.']
    }
}

/// Width-truncates a line for display.
pub fn truncate_text(s: &String, w: usize) -> (r: String)
    ensures
        r@ == truncated(s@, w as nat),
{
    let n = s.as_str().unicode_len();
    if n <= w {
        s.clone()
    } else if w < 4 {
        String::from_str(s.as_str().substring_char(0, w))
    } else {
        let head = String::from_str(s.as_str().substring_char(0, w - 3));
        let r = head.concat("...");
        proof {
            reveal_strlit("...");
            assert(r@ =~= truncated(s@, w as nat));
        }
        r
    }
}

} // verus!
