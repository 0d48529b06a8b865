use vstd::prelude::*;

use crate::errors::Error;
use crate::text::{find_char, first_index_of, is_alnum, is_alnum_char, lemma_first_index_of};

verus! {

/// A character allowed in the local part (before the `@`) of an address:
/// letters, digits, and the printable specials of the HTML living standard's
/// email shape.
pub open spec fn is_local_char(c: char) -> bool {
    is_alnum(c) || c == '.' || c == '!' || c == '#' || c == '$' || c == '%' || c == '&' || c == '\''
        || c == '*' || c == '+' || c == '/' || c == '=' || c == '?' || c == '^' || c == '_' || c
        == '`' || c == '{' || c == '|' || c == '}' || c == '~' || c == '-'
}

fn is_local_char_exec(c: char) -> (r: bool)
    ensures
        r == is_local_char(c),
{
    is_alnum_char(c) || c == '.' || c == '!' || c == '#' || c == '$' || c == '%' || c == '&' || c
        == '\'' || c == '*' || c == '+' || c == '/' || c == '=' || c == '?' || c == '^' || c == '_'
        || c == '`' || c == '{' || c == '|' || c == '}' || c == '~' || c == '-'
}

/// The local part: at least one character, all from the local charset.
pub open spec fn valid_local(s: Seq<char>) -> bool {
    s.len() >= 1 && forall|i: int| 0 <= i < s.len() ==> is_local_char(s[i])
}

/// One domain label: 1 to 63 characters, starting and ending with a letter
/// or digit, with letters, digits and hyphens in between.
pub open spec fn valid_label(s: Seq<char>) -> bool {
    &&& 1 <= s.len() <= 63
    &&& is_alnum(s[0])
    &&& is_alnum(s[s.len() - 1])
    &&& forall|i: int| 0 < i < s.len() - 1 ==> is_alnum(s[i]) || s[i] == '-'
}

/// The domain part: labels separated by single dots, each a valid label.
pub open spec fn valid_domain(s: Seq<char>) -> bool
    decreases s.len(),
{
    let dot = first_index_of(s, '.');
    if 0 <= dot && dot < s.len() {
        valid_label(s.subrange(0, dot)) && valid_domain(s.subrange(dot + 1, s.len() as int))
    } else {
        valid_label(s)
    }
}

/// The email shape the validator accepts: a non-empty local part, a single
/// `@` (the first one, and the charsets allow no other), and a valid domain.
pub open spec fn valid_email(s: Seq<char>) -> bool {
    let at = first_index_of(s, '@');
    at < s.len() && valid_local(s.subrange(0, at)) && valid_domain(
        s.subrange(at + 1, s.len() as int),
    )
}

/// Checks that the label at `s[from..to]` is valid.
fn check_label(s: &str, from: usize, to: usize) -> (r: bool)
    requires
        from <= to <= s@.len(),
    ensures
        r == valid_label(s@.subrange(from as int, to as int)),
{
    let ghost lab = s@.subrange(from as int, to as int);
    let len = to - from;
    if len < 1 || len > 63 {
        return false;
    }
    if !is_alnum_char(s.get_char(from)) {
        return false;
    }
    if !is_alnum_char(s.get_char(to - 1)) {
        return false;
    }
    let mut i: usize = from + 1;
    while i < to - 1
        invariant
            from < to <= s@.len(),
            from + 1 <= i <= to,
            lab == s@.subrange(from as int, to as int),
            forall|j: int| from < j < i ==> is_alnum(s@[j]) || s@[j] == '-',
        decreases to - i,
    {
        let c = s.get_char(i);
        if !(is_alnum_char(c) || c == '-') {
            assert(lab[i - from] == s@[i as int]);
            return false;
        }
        i += 1;
    }
    assert forall|k: int| 0 < k < lab.len() - 1 implies is_alnum(lab[k]) || lab[k] == '-' by {
        assert(lab[k] == s@[from + k]);
    }
    true
}

/// Checks that `s[from..]` is a valid domain.
fn check_domain(s: &str, from: usize) -> (r: bool)
    requires
        from <= s@.len(),
    ensures
        r == valid_domain(s@.skip(from as int)),
    decreases s@.len() - from,
{
    let ghost sub = s@.skip(from as int);
    let len = s.unicode_len();
    let dot = find_char(s, from, '.');
    proof {
        lemma_first_index_of(sub, '.');
    }
    if dot == len {
        let r = check_label(s, from, len);
        proof {
            assert(sub =~= s@.subrange(from as int, len as int));
        }
        r
    } else {
        assert(first_index_of(sub, '.') == dot - from);
        assert(dot - from < sub.len());
        let head_ok = check_label(s, from, dot);
        proof {
            assert(sub.subrange(0, dot - from) =~= s@.subrange(from as int, dot as int));
        }
        if !head_ok {
            return false;
        }
        let rest_ok = check_domain(s, dot + 1);
        proof {
            assert(sub.subrange(dot - from + 1, sub.len() as int) =~= s@.skip(dot + 1));
        }
        rest_ok
    }
}

/// Accepts exactly the addresses of `valid_email`; every rejection is a
/// `ValidationError`.
pub fn is_email(input: &str) -> (r: Result<(), Error>)
    ensures
        match r {
            Ok(()) => valid_email(input@),
            Err(e) => !valid_email(input@) && e == Error::ValidationError,
        },
{
    let len = input.unicode_len();
    proof {
        assert(input@.skip(0) =~= input@);
        lemma_first_index_of(input@, '@');
    }
    let at = find_char(input, 0, '@');
    if at == len {
        return Err(Error::ValidationError);
    }
    if at == 0 {
        assert(input@.subrange(0, 0).len() == 0);
        return Err(Error::ValidationError);
    }
    let ghost local = input@.subrange(0, at as int);
    let mut i: usize = 0;
    while i < at
        invariant
            0 <= i <= at,
            at < len,
            len == input@.len(),
            at == first_index_of(input@, '@'),
            local == input@.subrange(0, at as int),
            forall|j: int| 0 <= j < i ==> is_local_char(input@[j]),
        decreases at - i,
    {
        if !is_local_char_exec(input.get_char(i)) {
            assert(local[i as int] == input@[i as int]);
            return Err(Error::ValidationError);
        }
        i += 1;
    }
    assert forall|k: int| 0 <= k < local.len() implies is_local_char(local[k]) by {
        assert(local[k] == input@[k]);
    }
    let domain_ok = check_domain(input, at + 1);
    proof {
        assert(input@.skip(at + 1) =~= input@.subrange(at + 1, len as int));
    }
    if domain_ok {
        Ok(())
    } else {
        Err(Error::ValidationError)
    }
}

} // verus!
