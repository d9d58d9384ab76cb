//! Utilities for naming values.

use vstd::prelude::*;

use crate::error::ValidateName;

verus! {

/// Whether `c` may begin a name: a lowercase ASCII letter or an ASCII digit.
pub open spec fn is_valid_start(c: char) -> bool {
    ('a' <= c && c <= 'z') || ('0' <= c && c <= '9')
}

/// Whether `c` may appear after the first character of a name.
pub open spec fn is_valid_continue(c: char) -> bool {
    is_valid_start(c) || c == '-'
}

/// Whether `s` matches `^[a-z0-9][a-z0-9-]*$`.
pub open spec fn is_valid_name(s: Seq<char>) -> bool {
    &&& s.len() > 0
    &&& is_valid_start(s[0])
    &&& forall|i: int| 1 <= i < s.len() ==> is_valid_continue(#[trigger] s[i])
}

/// What validating `s` reports, character by character: the first rule that
/// `s` breaks, if any.
pub open spec fn validate_spec(s: Seq<char>) -> Result<(), ValidateName> {
    if s.len() == 0 {
        Err(ValidateName::Empty)
    } else if !is_valid_start(s[0]) {
        Err(ValidateName::InvalidStart(s[0]))
    } else if is_valid_name(s) {
        Ok(())
    } else {
        let i = choose|i: int|
            1 <= i < s.len() && !is_valid_continue(s[i]) && forall|j: int|
                1 <= j < i ==> is_valid_continue(#[trigger] s[j]);
        Err(ValidateName::InvalidContinue(i as usize, s[i]))
    }
}

pub(crate) proof fn lemma_encode_len_ge(chars: Seq<char>)
    ensures
        vstd::utf8::encode_utf8(chars).len() >= chars.len(),
    decreases chars.len(),
{
    if chars.len() > 0 {
        lemma_encode_len_ge(chars.drop_first());
    }
}

fn is_valid_start_exec(c: char) -> (r: bool)
    ensures
        r == is_valid_start(c),
{
    ('a' <= c && c <= 'z') || ('0' <= c && c <= '9')
}

fn is_valid_continue_exec(c: char) -> (r: bool)
    ensures
        r == is_valid_continue(c),
{
    is_valid_start_exec(c) || c == '-'
}

/// A name: a string matching `^[a-z0-9][a-z0-9-]*$`.
pub struct Name {
    inner: String,
}

impl View for Name {
    type V = Seq<char>;

    closed spec fn view(&self) -> Seq<char> {
        self.inner@
    }
}

impl Name {
    #[verifier::type_invariant]
    spec fn inv(self) -> bool {
        is_valid_name(self.inner@)
    }

    /// Check whether a `&str` is a valid [`Name`].
    ///
    /// The byte offset in `InvalidContinue` equals the character index, since
    /// every character before it is ASCII.
    pub fn validate(x: &str) -> (r: Result<(), ValidateName>)
        ensures
            r == validate_spec(x@),
            r matches Err(ValidateName::InvalidContinue(i, _)) ==> i
                == vstd::utf8::encode_utf8(x@.take(i as int)).len(),
    {
        let ghost s = x@;
        let bytes = x.as_bytes();
        let n = bytes.len();
        proof {
            lemma_encode_len_ge(s);
            assert(s.len() <= n);
        }
        let mut first = true;
        let mut i: usize = 0;
        for c in it: x.chars()
            invariant
                it.seq() == s,
                s == x@,
                i == it.index(),
                s.len() <= n,
                first == (i == 0),
                i > 0 ==> is_valid_start(s[0]),
                forall|j: int| 1 <= j < i ==> is_valid_continue(#[trigger] s[j]),
        {
            assert(c == s[i as int]);
            assert(i < s.len());
            if first {
                if !is_valid_start_exec(c) {
                    return Err(ValidateName::InvalidStart(c));
                }
                first = false;
            } else if !is_valid_continue_exec(c) {
                proof {
                    let k = i as int;
                    assert(1 <= k < s.len() && !is_valid_continue(s[k]) && forall|j: int|
                        1 <= j < k ==> is_valid_continue(#[trigger] s[j]));
                    let w = choose|w: int|
                        1 <= w < s.len() && !is_valid_continue(s[w]) && forall|j: int|
                            1 <= j < w ==> is_valid_continue(#[trigger] s[j]);
                    if w < k {
                        assert(is_valid_continue(s[w]));
                    }
                    if k < w {
                        assert(is_valid_continue(s[k]));
                    }
                    assert(!is_valid_name(s));
                    let pre = s.take(k);
                    assert(vstd::utf8::is_ascii_chars(pre)) by {
                        assert forall|j: int| 0 <= j < pre.len() implies '\0' <= #[trigger] pre[j]
                            <= '\u{7f}' by {
                            if j == 0 {
                                assert(is_valid_start(s[0]));
                            } else {
                                assert(is_valid_continue(s[j]));
                            }
                        }
                    }
                    vstd::utf8::is_ascii_chars_encode_utf8(pre);
                }
                return Err(ValidateName::InvalidContinue(i, c));
            }
            i = i + 1;
        }
        if first {
            return Err(ValidateName::Empty);
        }
        Ok(())
    }

    /// Parse a [`Name`] from a string, validating it first.
    pub fn from_str(s: &str) -> (r: Result<Name, ValidateName>)
        ensures
            r is Ok <==> is_valid_name(s@),
            r matches Ok(n) ==> n@ == s@,
            r matches Err(e) ==> Err::<(), ValidateName>(e) == validate_spec(s@),
    {
        match Name::validate(s) {
            Ok(()) => Ok(Name { inner: s.to_owned() }),
            Err(e) => Err(e),
        }
    }

    /// The name as a string slice.
    pub fn as_str(&self) -> (r: &str)
        ensures
            r@ == self@,
    {
        self.inner.as_str()
    }

    /// Whether two names are equal.
    pub fn same(&self, other: &Name) -> (r: bool)
        ensures
            r == (self@ == other@),
    {
        self.inner == other.inner
    }
}

} // verus!

verus! {

impl Clone for Name {
    fn clone(&self) -> (r: Self)
        ensures
            r@ == self@,
    {
        proof {
            use_type_invariant(self);
        }
        Name { inner: self.inner.clone() }
    }
}

/// The names in `s`, as character sequences.
pub open spec fn names_view(s: Seq<Name>) -> Seq<Seq<char>> {
    s.map_values(|n: Name| n@)
}

/// Copy a list of names.
pub fn clone_names(v: &Vec<Name>) -> (r: Vec<Name>)
    ensures
        names_view(r@) == names_view(v@),
{
    let mut r: Vec<Name> = Vec::new();
    for i in 0..v.len()
        invariant
            r@.len() == i,
            forall|j: int| 0 <= j < i ==> (#[trigger] r@[j])@ == v@[j]@,
    {
        r.push(v[i].clone());
    }
    assert(names_view(r@) =~= names_view(v@));
    r
}

/// A value with an associated name.
pub struct Named<T> {
    /// The name.
    pub name: Name,
    /// The value.
    pub value: T,
}

impl<T: View> View for Named<T> {
    type V = (Seq<char>, T::V);

    open spec fn view(&self) -> (Seq<char>, T::V) {
        (self.name@, self.value@)
    }
}

} // verus!
