//! Leaf token types of the policy grammar, and their character rules.
//!
//! Each token type comes with an acceptance rule for the characters that may
//! continue a token, a possibly stricter rule for the character that may
//! start it, an optional length cap and an optional escape scheme. The
//! tokenizer in [`crate::parse`] reads the maximal run of accepted
//! characters and hands the captured text to the type's construction
//! function.

use vstd::prelude::*;

verus! {

// --- character classes ---

pub open spec fn is_ascii_digit(c: char) -> bool {
    48 <= c as u32 && c as u32 <= 57
}

pub open spec fn is_ascii_lower(c: char) -> bool {
    97 <= c as u32 && c as u32 <= 122
}

pub open spec fn is_ascii_upper(c: char) -> bool {
    65 <= c as u32 && c as u32 <= 90
}

pub open spec fn is_ascii_alnum(c: char) -> bool {
    is_ascii_digit(c) || is_ascii_lower(c) || is_ascii_upper(c)
}

fn ascii_digit(c: char) -> (b: bool)
    ensures
        b == is_ascii_digit(c),
{
    let u = c as u32;
    48 <= u && u <= 57
}

fn ascii_lower(c: char) -> (b: bool)
    ensures
        b == is_ascii_lower(c),
{
    let u = c as u32;
    97 <= u && u <= 122
}

fn ascii_upper(c: char) -> (b: bool)
    ensures
        b == is_ascii_upper(c),
{
    let u = c as u32;
    65 <= u && u <= 90
}

fn ascii_alnum(c: char) -> (b: bool)
    ensures
        b == is_ascii_alnum(c),
{
    ascii_digit(c) || ascii_lower(c) || ascii_upper(c)
}

// --- token types ---

/// A user name: alphanumeric characters as well as `.`, `-` and `_`, but it
/// does not start with an underscore.
pub struct Username(pub String);

impl View for Username {
    type V = Seq<char>;

    open spec fn view(&self) -> Seq<char> {
        self.0@
    }
}

pub open spec fn username_accept(c: char) -> bool {
    is_ascii_alnum(c) || c == '.' || c == '-' || c == '_'
}

pub open spec fn username_accept_1st(c: char) -> bool {
    c != '_' && username_accept(c)
}

impl Username {
    /// May this character continue a user name token?
    pub fn accept(c: char) -> (b: bool)
        ensures
            b == username_accept(c),
    {
        ascii_alnum(c) || c == '.' || c == '-' || c == '_'
    }

    /// May this character start a user name token?
    pub fn accept_1st(c: char) -> (b: bool)
        ensures
            b == username_accept_1st(c),
    {
        c != '_' && Username::accept(c)
    }
}

/// A host name: alphanumeric characters as well as `.`, `-` and `_`.
pub struct Hostname(pub String);

impl View for Hostname {
    type V = Seq<char>;

    open spec fn view(&self) -> Seq<char> {
        self.0@
    }
}

pub open spec fn hostname_accept(c: char) -> bool {
    is_ascii_alnum(c) || c == '.' || c == '-' || c == '_'
}

impl Hostname {
    /// May this character continue (or start) a host name token?
    pub fn accept(c: char) -> (b: bool)
        ensures
            b == hostname_accept(c),
    {
        ascii_alnum(c) || c == '.' || c == '-' || c == '_'
    }
}

/// A signed decimal integer token.
pub struct Decimal(pub i32);

impl View for Decimal {
    type V = int;

    open spec fn view(&self) -> int {
        self.0 as int
    }
}

pub open spec fn decimal_accept(c: char) -> bool {
    is_ascii_digit(c)
}

pub open spec fn decimal_accept_1st(c: char) -> bool {
    is_ascii_digit(c) || c == '+' || c == '-'
}

/// The numeric value of one decimal digit character.
pub open spec fn digit_value(c: char) -> int {
    c as u32 - 48
}

/// The value of a sequence of decimal digits, most significant first.
pub open spec fn digits_value(s: Seq<char>) -> int
    decreases s.len(),
{
    if s.len() == 0 {
        0
    } else {
        digits_value(s.drop_last()) * 10 + digit_value(s.last())
    }
}

pub open spec fn all_digits(s: Seq<char>) -> bool {
    forall|i: int| 0 <= i < s.len() ==> is_ascii_digit(#[trigger] s[i])
}

/// Is this text a well-formed signed decimal numeral: an optional sign
/// followed by at least one digit?
pub open spec fn decimal_text_valid(t: Seq<char>) -> bool {
    if t.len() == 0 {
        false
    } else if t[0] == '+' || t[0] == '-' {
        t.len() > 1 && all_digits(t.skip(1))
    } else {
        all_digits(t)
    }
}

/// The signed value of a well-formed decimal numeral.
pub open spec fn decimal_text_value(t: Seq<char>) -> int
    recommends
        decimal_text_valid(t),
{
    if t.len() > 0 && t[0] == '-' {
        -digits_value(t.skip(1))
    } else if t.len() > 0 && t[0] == '+' {
        digits_value(t.skip(1))
    } else {
        digits_value(t)
    }
}

proof fn lemma_digits_value_nonneg(s: Seq<char>)
    requires
        all_digits(s),
    ensures
        digits_value(s) >= 0,
    decreases s.len(),
{
    if s.len() > 0 {
        assert(all_digits(s.drop_last())) by {
            assert(forall|i: int| 0 <= i < s.len() - 1 ==> s.drop_last()[i] == s[i]);
        }
        lemma_digits_value_nonneg(s.drop_last());
        assert(is_ascii_digit(s[s.len() - 1]));
    }
}

/// Reading further digits never shrinks the value: the value of a prefix is
/// a lower bound for the value of the whole numeral.
proof fn lemma_digits_value_prefix(s: Seq<char>, k: int)
    requires
        0 <= k <= s.len(),
        all_digits(s),
    ensures
        digits_value(s.take(k)) <= digits_value(s),
    decreases s.len() - k,
{
    if k < s.len() {
        lemma_digits_value_prefix(s, k + 1);
        assert(s.take(k + 1).drop_last() =~= s.take(k));
        assert(digits_value(s.take(k + 1)) == digits_value(s.take(k)) * 10 + digit_value(s.take(k + 1).last()));
        assert(all_digits(s.take(k))) by {
            assert(forall|i: int| 0 <= i < k ==> s.take(k)[i] == s[i]);
        }
        lemma_digits_value_nonneg(s.take(k));
        assert(is_ascii_digit(s[k]));
    } else {
        assert(s.take(k) =~= s);
    }
}

impl Decimal {
    /// May this character continue a decimal token?
    pub fn accept(c: char) -> (b: bool)
        ensures
            b == decimal_accept(c),
    {
        ascii_digit(c)
    }

    /// May this character start a decimal token?
    pub fn accept_1st(c: char) -> (b: bool)
        ensures
            b == decimal_accept_1st(c),
    {
        ascii_digit(c) || c == '+' || c == '-'
    }

    /// Construct a decimal value from raw token text. Returns the parsed
    /// signed integer exactly when the text is a well-formed numeral whose
    /// value fits in the machine type; every other text is rejected.
    pub fn from_text(s: &str) -> (r: Option<Decimal>)
        ensures
            match r {
                Some(d) => decimal_text_valid(s@) && i32::MIN <= decimal_text_value(s@) <= i32::MAX
                    && d.0 == decimal_text_value(s@),
                None => !(decimal_text_valid(s@) && i32::MIN <= decimal_text_value(s@) <= i32::MAX),
            },
{
        let n = s.unicode_len();
        if n == 0 {
            return None;
        }
        let first = s.get_char(0);
        let negative = first == '-';
        let start: usize = if first == '-' || first == '+' {
            1
        } else {
            0
        };
        if n == start {
            return None;
        }
        let ghost digits = s@.skip(start as int);
        proof {
            if start == 0 {
                assert(digits =~= s@);
            }
        }
        let mut acc: u64 = 0;
        let mut j: usize = start;
        while j < n
            invariant
                start <= j <= n,
                0 < n == s@.len(),
                start <= 1,
                start == 1 <==> (s@[0] == '-' || s@[0] == '+'),
                digits == s@.skip(start as int),
                start == 0 ==> digits == s@,
                acc <= 0x8000_0000u64,
                acc as int == digits_value(digits.take(j - start)),
                all_digits(digits.take(j - start)),
            decreases n - j,
        {
            let c = s.get_char(j);
            if !ascii_digit(c) {
                proof {
                    assert(digits[j - start] == s@[j as int]);
                    assert(!all_digits(digits));
                }
                return None;
            }
            let d = (c as u32 - 48) as u64;
            acc = acc * 10 + d;
            proof {
                assert(digits.take(j - start + 1).drop_last() =~= digits.take(j - start));
                assert(digits.take(j - start + 1).last() == s@[j as int]);
            }
            j += 1;
            if acc > 0x8000_0000u64 {
                proof {
                    if all_digits(digits) {
                        lemma_digits_value_prefix(digits, j - start);
                        assert(digits.take(digits.len() as int) =~= digits);
                        assert(digits_value(digits) > 0x8000_0000);
                        if s@[0] == '-' {
                            assert(decimal_text_value(s@) == -digits_value(digits));
                            assert(decimal_text_value(s@) < i32::MIN);
                        } else {
                            assert(s@[0] == '+' ==> digits == s@.skip(1));
                            assert(decimal_text_value(s@) == digits_value(digits));
                            assert(decimal_text_value(s@) > i32::MAX);
                        }
                    } else {
                        assert(!decimal_text_valid(s@));
                    }
                }
                return None;
            }
        }
        proof {
            assert(digits.take(n - start) =~= digits);
            assert(decimal_text_valid(s@));
            assert(decimal_text_value(s@) == if s@[0] == '-' {
                -digits_value(digits)
            } else {
                digits_value(digits)
            });
        }
        if negative {
            let v: i64 = -(acc as i64);
            Some(Decimal(v as i32))
        } else {
            if acc > 0x7fff_ffffu64 {
                return None;
            }
            Some(Decimal(acc as i32))
        }
    }
}

/// A user specifier: either a user name, or a group name written with a
/// leading `%` marker.
pub enum UserSpecifier {
    User(Username),
    Group(Username),
}

/// The mathematical shape of a parsed user specifier.
pub enum UserSpecView {
    User(Seq<char>),
    Group(Seq<char>),
}

impl View for UserSpecifier {
    type V = UserSpecView;

    open spec fn view(&self) -> UserSpecView {
        match self {
            UserSpecifier::User(n) => UserSpecView::User(n@),
            UserSpecifier::Group(n) => UserSpecView::Group(n@),
        }
    }
}

pub open spec fn userspec_accept(c: char) -> bool {
    is_ascii_alnum(c)
}

pub open spec fn userspec_accept_1st(c: char) -> bool {
    is_ascii_alnum(c) || c == '%'
}

/// The user specifier denoted by raw token text: a leading `%` marks the
/// rest of the text as a group name, any other text is a user name.
pub open spec fn spec_userspec_of(t: Seq<char>) -> UserSpecView {
    if t.len() > 0 && t[0] == '%' {
        UserSpecView::Group(t.skip(1))
    } else {
        UserSpecView::User(t)
    }
}

impl UserSpecifier {
    /// May this character continue a user specifier token?
    pub fn accept(c: char) -> (b: bool)
        ensures
            b == userspec_accept(c),
    {
        ascii_alnum(c)
    }

    /// May this character start a user specifier token?
    pub fn accept_1st(c: char) -> (b: bool)
        ensures
            b == userspec_accept_1st(c),
    {
        ascii_alnum(c) || c == '%'
    }

    /// Construct a user specifier from raw token text.
    pub fn from_text(text: String) -> (u: UserSpecifier)
        ensures
            u@ == spec_userspec_of(text@),
    {
        let n = text.as_str().unicode_len();
        if n > 0 && text.as_str().get_char(0) == '%' {
            let rest = text.as_str().substring_char(1, n).to_owned();
            UserSpecifier::Group(Username(rest))
        } else {
            UserSpecifier::User(Username(text))
        }
    }
}

/// An identifier that consists of only uppercase characters.
pub struct Upper(pub String);

impl View for Upper {
    type V = Seq<char>;

    open spec fn view(&self) -> Seq<char> {
        self.0@
    }
}

/// Whether a character has Unicode's Uppercase property; a fact of the
/// character alone.
pub uninterp spec fn unicode_uppercase(c: char) -> bool;

/// Relies on char::is_uppercase: whether a character is uppercase (per
/// Unicode's Uppercase property) depends on the character alone.
pub assume_specification[ char::is_uppercase ](c: char) -> (b: bool)
    ensures
        b == unicode_uppercase(c),
;

pub open spec fn upper_accept(c: char) -> bool {
    unicode_uppercase(c)
}

impl Upper {
    /// May this character continue (or start) an uppercase identifier?
    pub fn accept(c: char) -> (b: bool)
        ensures
            b == upper_accept(c),
    {
        c.is_uppercase()
    }
}

/// A command string: any characters except the escapable set, unless
/// preceded by the escape character, limited to 1024 characters.
pub struct Command(pub String);

impl View for Command {
    type V = Seq<char>;

    open spec fn view(&self) -> Seq<char> {
        self.0@
    }
}

/// The characters that end a command token unless escaped: the escape
/// character itself, the list separator, the tag separator and `=`.
pub open spec fn command_escaped(c: char) -> bool {
    c == '\\' || c == ',' || c == ':' || c == '='
}

pub open spec fn command_accept(c: char) -> bool {
    !command_escaped(c)
}

/// The command token length cap, in raw characters.
pub const COMMAND_MAX_LEN: usize = 1024;

impl Command {
    /// Is this a character that must be escaped inside a command?
    pub fn escaped(c: char) -> (b: bool)
        ensures
            b == command_escaped(c),
    {
        c == '\\' || c == ',' || c == ':' || c == '='
    }

    /// May this character continue (or start) a command token?
    pub fn accept(c: char) -> (b: bool)
        ensures
            b == command_accept(c),
    {
        !Command::escaped(c)
    }
}

/// A wildcard-or-specific-value wrapper: the literal keyword `ALL` denotes
/// the wildcard, any other text is delegated to the wrapped token type.
pub enum All<T> {
    All,
    Only(T),
}

/// The mathematical shape of a wildcard-or-value entry.
pub enum AllView<T> {
    All,
    Only(T),
}

impl<T: View> View for All<T> {
    type V = AllView<T::V>;

    open spec fn view(&self) -> AllView<T::V> {
        match self {
            All::All => AllView::All,
            All::Only(t) => AllView::Only(t@),
        }
    }
}

/// The keyword whose exact match denotes the wildcard entry.
pub open spec fn all_keyword() -> Seq<char> {
    seq!['A', 'L', 'L']
}

impl<T> All<T> {
    /// The character set of a wildcard-or-value token: the union of the
    /// wrapped type's set with the letters needed to spell the keyword.
    pub fn accept_with(inner: bool, c: char) -> (b: bool)
        ensures
            b == (inner || c == 'L'),
    {
        inner || c == 'L'
    }

    /// As `accept_with`, for the character that starts the token.
    pub fn accept_1st_with(inner: bool, c: char) -> (b: bool)
        ensures
            b == (inner || c == 'A'),
    {
        inner || c == 'A'
    }
}

} // verus!
