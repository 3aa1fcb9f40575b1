//! Message strings in gettext translation files, with double quotes escaped.

use vstd::prelude::*;

verus! {

/// What escaping a single character produces: a double quote gains a leading
/// backslash, every other character is kept as it is.
pub open spec fn escape_char(c: char) -> Seq<char> {
    if c == '"' {
        seq!['\\', '"']
    } else {
        seq![c]
    }
}

/// What escaping a whole string produces, character by character.
pub open spec fn escape_seq(s: Seq<char>) -> Seq<char>
    decreases s.len(),
{
    if s.len() == 0 {
        Seq::<char>::empty()
    } else {
        escape_char(s[0]) + escape_seq(s.skip(1))
    }
}

/// Escaping distributes over extending the input on the right.
pub proof fn lemma_escape_seq_push(s: Seq<char>, c: char)
    ensures
        escape_seq(s.push(c)) == escape_seq(s) + escape_char(c),
    decreases s.len(),
{
    if s.len() == 0 {
        assert(s.push(c)[0] == c);
        assert(s.push(c).skip(1) =~= Seq::<char>::empty());
        assert(escape_seq(s.push(c)) == escape_char(c) + escape_seq(Seq::<char>::empty()));
        assert(escape_char(c) + Seq::<char>::empty() =~= escape_char(c));
        assert(escape_seq(s) + escape_char(c) =~= escape_char(c));
    } else {
        assert(s.push(c).skip(1) =~= s.skip(1).push(c));
        lemma_escape_seq_push(s.skip(1), c);
        assert(escape_seq(s.push(c)) =~= escape_seq(s) + escape_char(c));
    }
}

/// A message string in a gettext translation file.
#[derive(Clone, Debug)]
pub struct MsgString {
    pub text: String,
}

impl View for MsgString {
    type V = Seq<char>;

    open spec fn view(&self) -> Seq<char> {
        self.text@
    }
}

impl MsgString {
    /// Create a new empty `MsgString`.
    ///
    /// Equivalent to `MsgString::from_escaped("")`.
    pub fn empty() -> (r: Self)
        ensures
            r@ =~= Seq::<char>::empty(),
    {
        MsgString { text: String::new() }
    }

    /// Create a new `MsgString` from a string without any escaped characters.
    ///
    /// This will ensure that the string has the double quote characters
    /// properly escaped.
    pub fn from_unescaped(string: &str) -> (r: Self)
        ensures
            r@ == escape_seq(string@),
    {
        let len = string.unicode_len();
        let mut text = String::new();
        let mut i: usize = 0;
        proof {
            assert(string@.subrange(0, 0) =~= Seq::<char>::empty());
        }
        while i < len
            invariant
                i <= len,
                len == string@.len(),
                text@ == escape_seq(string@.subrange(0, i as int)),
            decreases len - i,
        {
            let c = string.get_char(i);
            if c == '"' {
                text.append("\\\"");
                proof {
                    reveal_strlit("\\\"");
                }
            } else {
                let piece = string.substring_char(i, i + 1);
                text.append(piece);
            }
            proof {
                let prefix = string@.subrange(0, i as int);
                lemma_escape_seq_push(prefix, string@[i as int]);
                assert(prefix.push(string@[i as int]) =~= string@.subrange(0, i + 1 as int));
                if string@[i as int] == '"' {
                    assert(text@ =~= escape_seq(string@.subrange(0, i + 1 as int)));
                } else {
                    assert(string@.subrange(i as int, i + 1 as int) =~= seq![string@[i as int]]);
                    assert(text@ =~= escape_seq(string@.subrange(0, i + 1 as int)));
                }
            }
            i = i + 1;
        }
        proof {
            assert(string@.subrange(0, len as int) =~= string@);
        }
        MsgString { text }
    }

    /// Create a new `MsgString` from a string that already has proper escaping.
    pub fn from_escaped(string: &str) -> (r: Self)
        ensures
            r@ == string@,
    {
        MsgString { text: string.to_owned() }
    }

    /// The escaped text held by this message string.
    pub fn as_str(&self) -> (r: &str)
        ensures
            r@ == self@,
    {
        self.text.as_str()
    }
}

} // verus!
