//! The rule-line parser.
//!
//! The grammar of one policy line is specified by recursive spec functions
//! over the line's character sequence; the executable parser is proved to
//! return exactly what they describe. Reading one token consumes the
//! maximal run of characters accepted by the token's kind, respecting the
//! kind's escape scheme and length cap; a line is accepted only when the
//! grammar consumes it completely.

use vstd::prelude::*;
use crate::ast::ClauseView;
use crate::ast::CmdSpec;
use crate::ast::CmdSpecView;
use crate::ast::Clause;
use crate::ast::QualView;
use crate::ast::Qualified;
use crate::ast::Rule;
use crate::ast::RuleView;
use crate::ast::RunAs;
use crate::ast::RunAsView;
use crate::ast::Tag;
use crate::ast::lemma_view_seq_insert_front;
use crate::ast::view_seq;
use crate::eval::exact;
use crate::tokens::All;
use crate::tokens::AllView;
use crate::tokens::Command;
use crate::tokens::Hostname;
use crate::tokens::Upper;
use crate::tokens::UserSpecifier;
use crate::tokens::UserSpecView;
use crate::tokens::all_keyword;
use crate::tokens::command_accept;
use crate::tokens::command_escaped;
use crate::tokens::decimal_accept;
use crate::tokens::decimal_accept_1st;
use crate::tokens::hostname_accept;
use crate::tokens::spec_userspec_of;
use crate::tokens::upper_accept;
use crate::tokens::username_accept;
use crate::tokens::username_accept_1st;
use crate::tokens::userspec_accept;
use crate::tokens::userspec_accept_1st;
use crate::tokens::COMMAND_MAX_LEN;

verus! {

/// How many entries one separator-delimited list may hold.
pub const LIST_LIMIT: usize = 127;

/// The token kinds the grammar reads; the wildcard-wrapped kinds extend
/// their inner kind's character set with the letters of the keyword `ALL`.
#[derive(Clone, Copy)]
pub enum TokenKind {
    Username,
    Decimal,
    Hostname,
    UserSpec,
    Upper,
    Command,
    AllUserSpec,
    AllHostname,
    AllCommand,
}

/// May this character continue a token of this kind?
pub open spec fn spec_accept(k: TokenKind, c: char) -> bool {
    match k {
        TokenKind::Username => username_accept(c),
        TokenKind::Decimal => decimal_accept(c),
        TokenKind::Hostname => hostname_accept(c),
        TokenKind::UserSpec => userspec_accept(c),
        TokenKind::Upper => upper_accept(c),
        TokenKind::Command => command_accept(c),
        TokenKind::AllUserSpec => userspec_accept(c) || c == 'L',
        TokenKind::AllHostname => hostname_accept(c) || c == 'L',
        TokenKind::AllCommand => command_accept(c) || c == 'L',
    }
}

/// May this character start a token of this kind?
pub open spec fn spec_accept_1st(k: TokenKind, c: char) -> bool {
    match k {
        TokenKind::Username => username_accept_1st(c),
        TokenKind::Decimal => decimal_accept_1st(c),
        TokenKind::Hostname => hostname_accept(c),
        TokenKind::UserSpec => userspec_accept_1st(c),
        TokenKind::Upper => upper_accept(c),
        TokenKind::Command => command_accept(c),
        TokenKind::AllUserSpec => userspec_accept_1st(c) || c == 'A',
        TokenKind::AllHostname => hostname_accept(c) || c == 'A',
        TokenKind::AllCommand => command_accept(c) || c == 'A',
    }
}

/// Does this kind use the backslash escape scheme?
pub open spec fn spec_has_escape(k: TokenKind) -> bool {
    match k {
        TokenKind::Command => true,
        TokenKind::AllCommand => true,
        _ => false,
    }
}

/// The kind's length cap in raw characters, if it has one.
pub open spec fn spec_max_len(k: TokenKind) -> Option<int> {
    match k {
        TokenKind::Command => Some(COMMAND_MAX_LEN as int),
        TokenKind::AllCommand => Some(COMMAND_MAX_LEN as int),
        _ => None,
    }
}

fn accept_x(k: TokenKind, c: char) -> (b: bool)
    ensures
        b == spec_accept(k, c),
{
    match k {
        TokenKind::Username => crate::tokens::Username::accept(c),
        TokenKind::Decimal => crate::tokens::Decimal::accept(c),
        TokenKind::Hostname => Hostname::accept(c),
        TokenKind::UserSpec => UserSpecifier::accept(c),
        TokenKind::Upper => Upper::accept(c),
        TokenKind::Command => Command::accept(c),
        TokenKind::AllUserSpec => All::<UserSpecifier>::accept_with(UserSpecifier::accept(c), c),
        TokenKind::AllHostname => All::<Hostname>::accept_with(Hostname::accept(c), c),
        TokenKind::AllCommand => All::<Command>::accept_with(Command::accept(c), c),
    }
}

fn accept_1st_x(k: TokenKind, c: char) -> (b: bool)
    ensures
        b == spec_accept_1st(k, c),
{
    match k {
        TokenKind::Username => crate::tokens::Username::accept_1st(c),
        TokenKind::Decimal => crate::tokens::Decimal::accept_1st(c),
        TokenKind::Hostname => Hostname::accept(c),
        TokenKind::UserSpec => UserSpecifier::accept_1st(c),
        TokenKind::Upper => Upper::accept(c),
        TokenKind::Command => Command::accept(c),
        TokenKind::AllUserSpec => All::<UserSpecifier>::accept_1st_with(UserSpecifier::accept_1st(c), c),
        TokenKind::AllHostname => All::<Hostname>::accept_1st_with(Hostname::accept(c), c),
        TokenKind::AllCommand => All::<Command>::accept_1st_with(Command::accept(c), c),
    }
}

fn has_escape_x(k: TokenKind) -> (b: bool)
    ensures
        b == spec_has_escape(k),
{
    match k {
        TokenKind::Command => true,
        TokenKind::AllCommand => true,
        _ => false,
    }
}

fn escaped_x(c: char) -> (b: bool)
    ensures
        b == command_escaped(c),
{
    Command::escaped(c)
}

// --- whitespace and token runs ---

/// Is this an intra-line whitespace character?
pub open spec fn is_line_ws(c: char) -> bool {
    c == ' ' || c == '\t'
}

/// The first position at or after `i` that does not hold whitespace.
pub open spec fn skip_ws(s: Seq<char>, i: int) -> int
    decreases s.len() - i when 0 <= i <= s.len()
{
    if i < s.len() && is_line_ws(s[i]) {
        skip_ws(s, i + 1)
    } else {
        i
    }
}

pub proof fn lemma_skip_ws_bounds(s: Seq<char>, i: int)
    requires
        0 <= i <= s.len(),
    ensures
        i <= skip_ws(s, i) <= s.len(),
    decreases s.len() - i,
{
    if i < s.len() && is_line_ws(s[i]) {
        lemma_skip_ws_bounds(s, i + 1);
    }
}

/// The end of the maximal accepted run that starts at `i`: an escape
/// character followed by an escapable character consumes both without
/// ending the run; otherwise the run continues only over accepted
/// characters.
pub open spec fn run_end(k: TokenKind, s: Seq<char>, i: int) -> int
    decreases s.len() - i when 0 <= i <= s.len()
{
    if i < s.len() && spec_has_escape(k) && s[i] == '\\' && i + 1 < s.len() && command_escaped(s[i + 1]) {
        run_end(k, s, i + 2)
    } else if i < s.len() && spec_accept(k, s[i]) {
        run_end(k, s, i + 1)
    } else {
        i
    }
}

pub proof fn lemma_run_end_bounds(k: TokenKind, s: Seq<char>, i: int)
    requires
        0 <= i <= s.len(),
    ensures
        i <= run_end(k, s, i) <= s.len(),
    decreases s.len() - i,
{
    if i < s.len() && spec_has_escape(k) && s[i] == '\\' && i + 1 < s.len() && command_escaped(s[i + 1]) {
        lemma_run_end_bounds(k, s, i + 2);
    } else if i < s.len() && spec_accept(k, s[i]) {
        lemma_run_end_bounds(k, s, i + 1);
    }
}

/// Where one token of this kind lies when read at `i`: whitespace is
/// skipped, the first character must satisfy the kind's start rule, the
/// rest is the maximal accepted run, and the captured text must not exceed
/// the kind's length cap.
pub open spec fn spec_read_tok(k: TokenKind, s: Seq<char>, i: int) -> Option<(int, int)> {
    let st = skip_ws(s, i);
    if st < s.len() && spec_accept_1st(k, s[st]) {
        let en = run_end(k, s, st + 1);
        if match spec_max_len(k) {
            Some(m) => en - st <= m,
            None => true,
        } {
            Some((st, en))
        } else {
            None
        }
    } else {
        None
    }
}

pub proof fn lemma_read_tok_bounds(k: TokenKind, s: Seq<char>, i: int)
    requires
        0 <= i <= s.len(),
    ensures
        match spec_read_tok(k, s, i) {
            Some(t) => i <= t.0 < t.1 <= s.len(),
            None => true,
        },
{
    lemma_skip_ws_bounds(s, i);
    if skip_ws(s, i) < s.len() {
        lemma_run_end_bounds(k, s, skip_ws(s, i) + 1);
    }
}

fn ws_at(s: &str, j: usize) -> (b: bool)
    requires
        j < s@.len(),
    ensures
        b == is_line_ws(s@[j as int]),
{
    let c = s.get_char(j);
    c == ' ' || c == '\t'
}

fn skip_ws_x(s: &str, i: usize) -> (r: usize)
    requires
        i as int <= s@.len(),
    ensures
        r as int == skip_ws(s@, i as int),
        i <= r,
        r as int <= s@.len(),
{
    let n = s.unicode_len();
    let mut j = i;
    while j < n && ws_at(s, j)
        invariant
            i <= j <= n,
            n == s@.len(),
            skip_ws(s@, i as int) == skip_ws(s@, j as int),
        decreases n - j,
    {
        j += 1;
    }
    j
}

fn run_end_x(k: TokenKind, s: &str, start: usize) -> (r: usize)
    requires
        start as int <= s@.len(),
    ensures
        r as int == run_end(k, s@, start as int),
        start <= r,
        r as int <= s@.len(),
{
    let n = s.unicode_len();
    let mut j = start;
    let mut done = false;
    while !done
        invariant
            start <= j <= n,
            n == s@.len(),
            if done {
                run_end(k, s@, start as int) == j as int
            } else {
                run_end(k, s@, start as int) == run_end(k, s@, j as int)
            },
        decreases n - j + if done { 0int } else { 1int },
    {
        if j >= n {
            done = true;
        } else {
            let c = s.get_char(j);
            if has_escape_x(k) && c == '\\' && j + 1 < n && escaped_x(s.get_char(j + 1)) {
                j += 2;
            } else if accept_x(k, c) {
                j += 1;
            } else {
                done = true;
            }
        }
    }
    j
}

fn max_len_x(k: TokenKind) -> (r: Option<usize>)
    ensures
        match r {
            Some(m) => spec_max_len(k) == Some(m as int),
            None => spec_max_len(k) is None,
        },
{
    match k {
        TokenKind::Command => Some(COMMAND_MAX_LEN),
        TokenKind::AllCommand => Some(COMMAND_MAX_LEN),
        _ => None,
    }
}

/// Read one token of the given kind at `i`: the captured text and the
/// position just past it.
fn read_token(k: TokenKind, s: &str, i: usize) -> (r: Option<(String, usize)>)
    requires
        i as int <= s@.len(),
    ensures
        match (r, spec_read_tok(k, s@, i as int)) {
            (Option::None, o) => o is None,
            (Option::Some((text, e)), Option::Some(t)) => text@ == s@.subrange(t.0, t.1)
                && e as int == t.1 && i as int <= t.0 < t.1 && e as int <= s@.len()
                && text@.len() > 0,
            _ => false,
        },
{
    let st = skip_ws_x(s, i);
    let n = s.unicode_len();
    if st < n && accept_1st_x(k, s.get_char(st)) {
        let en = run_end_x(k, s, st + 1);
        match max_len_x(k) {
            Some(m) => {
                if en - st > m {
                    return None;
                }
            },
            None => {},
        }
        let text = s.substring_char(st, en).to_owned();
        Some((text, en))
    } else {
        None
    }
}

// --- token text to typed values ---

/// Whether a character has Unicode's White_Space property; a fact of the
/// character alone.
pub uninterp spec fn unicode_whitespace(c: char) -> bool;

/// Relies on char::is_whitespace: whether a character is whitespace (per
/// Unicode's White_Space property) depends on the character alone.
pub assume_specification[ char::is_whitespace ](c: char) -> (b: bool)
    ensures
        b == unicode_whitespace(c),
;

/// The text with leading whitespace removed.
pub open spec fn trim_front(t: Seq<char>) -> Seq<char>
    decreases t.len(),
{
    if t.len() > 0 && unicode_whitespace(t[0]) {
        trim_front(t.skip(1))
    } else {
        t
    }
}

/// The text with trailing whitespace removed.
pub open spec fn trim_back(t: Seq<char>) -> Seq<char>
    decreases t.len(),
{
    if t.len() > 0 && unicode_whitespace(t.last()) {
        trim_back(t.drop_last())
    } else {
        t
    }
}

/// The text with surrounding whitespace removed.
pub open spec fn spec_trim(t: Seq<char>) -> Seq<char> {
    trim_back(trim_front(t))
}

fn trim_ws_at(s: &str, j: usize) -> (b: bool)
    requires
        j < s@.len(),
    ensures
        b == unicode_whitespace(s@[j as int]),
{
    s.get_char(j).is_whitespace()
}

fn trim_str(t: &str) -> (r: String)
    ensures
        r@ == spec_trim(t@),
{
    let n = t.unicode_len();
    let mut a: usize = 0;
    proof {
        assert(t@.skip(0) =~= t@);
    }
    while a < n && trim_ws_at(t, a)
        invariant
            a <= n,
            n == t@.len(),
            trim_front(t@) == trim_front(t@.skip(a as int)),
        decreases n - a,
    {
        proof {
            assert(t@.skip(a as int).skip(1) =~= t@.skip(a + 1));
            assert(t@.skip(a as int)[0] == t@[a as int]);
        }
        a += 1;
    }
    proof {
        if a < n {
            assert(t@.skip(a as int)[0] == t@[a as int]);
        }
        assert(trim_front(t@) == t@.skip(a as int));
    }
    let ghost u = t@.skip(a as int);
    let mut b: usize = n;
    proof {
        assert(u.take(n - a) =~= u);
    }
    while b > a && trim_ws_at(t, b - 1)
        invariant
            a <= b <= n,
            n == t@.len(),
            u == t@.skip(a as int),
            trim_back(u) == trim_back(u.take(b - a)),
        decreases b,
    {
        proof {
            assert(u.take(b - a).last() == t@[b - 1]);
            assert(u.take(b - a).drop_last() =~= u.take(b - 1 - a));
        }
        b -= 1;
    }
    proof {
        if b > a {
            assert(u.take(b - a).last() == t@[b - 1]);
        }
        assert(trim_back(u) == u.take(b - a));
        assert(u.take(b - a) =~= t@.subrange(a as int, b as int));
    }
    t.substring_char(a, b).to_owned()
}

/// The recognized uppercase tag keyword for "no password required".
pub open spec fn nopasswd_keyword() -> Seq<char> {
    seq!['N', 'O', 'P', 'A', 'S', 'S', 'W', 'D']
}

fn is_all_keyword(t: &str) -> (b: bool)
    ensures
        b == (t@ == all_keyword()),
{
    let r = exact(t, "ALL");
    proof {
        reveal_strlit("ALL");
        assert("ALL"@ =~= all_keyword());
    }
    r
}

fn is_nopasswd_keyword(t: &str) -> (b: bool)
    ensures
        b == (t@ == nopasswd_keyword()),
{
    let r = exact(t, "NOPASSWD");
    proof {
        reveal_strlit("NOPASSWD");
        assert("NOPASSWD"@ =~= nopasswd_keyword());
    }
    r
}

// --- qualified wildcard-or-value entries ---

/// One qualified user entry: an optional negation marker, then either the
/// wildcard keyword or a user specifier.
pub open spec fn parse_user_entry(s: Seq<char>, i: int) -> Option<(QualView<AllView<UserSpecView>>, int)> {
    let j = skip_ws(s, i);
    let neg = j < s.len() && s[j] == '!';
    let i2 = if neg {
        j + 1
    } else {
        i
    };
    match spec_read_tok(TokenKind::AllUserSpec, s, i2) {
        None => None,
        Some(t) => {
            let text = s.subrange(t.0, t.1);
            let target = if text == all_keyword() {
                AllView::<UserSpecView>::All
            } else {
                AllView::Only(spec_userspec_of(text))
            };
            Some(
                (
                    if neg {
                        QualView::Forbid(target)
                    } else {
                        QualView::Allow(target)
                    },
                    t.1,
                ),
            )
        },
    }
}

pub proof fn lemma_user_entry_progress(s: Seq<char>, i: int)
    requires
        0 <= i <= s.len(),
    ensures
        match parse_user_entry(s, i) {
            Some(t) => i < t.1 <= s.len(),
            None => true,
        },
{
    lemma_skip_ws_bounds(s, i);
    let j = skip_ws(s, i);
    let i2 = if j < s.len() && s[j] == '!' {
        j + 1
    } else {
        i
    };
    lemma_read_tok_bounds(TokenKind::AllUserSpec, s, i2);
}

/// One qualified host entry.
pub open spec fn parse_host_entry(s: Seq<char>, i: int) -> Option<(QualView<AllView<Seq<char>>>, int)> {
    let j = skip_ws(s, i);
    let neg = j < s.len() && s[j] == '!';
    let i2 = if neg {
        j + 1
    } else {
        i
    };
    match spec_read_tok(TokenKind::AllHostname, s, i2) {
        None => None,
        Some(t) => {
            let text = s.subrange(t.0, t.1);
            let target = if text == all_keyword() {
                AllView::<Seq<char>>::All
            } else {
                AllView::Only(text)
            };
            Some(
                (
                    if neg {
                        QualView::Forbid(target)
                    } else {
                        QualView::Allow(target)
                    },
                    t.1,
                ),
            )
        },
    }
}

pub proof fn lemma_host_entry_progress(s: Seq<char>, i: int)
    requires
        0 <= i <= s.len(),
    ensures
        match parse_host_entry(s, i) {
            Some(t) => i < t.1 <= s.len(),
            None => true,
        },
{
    lemma_skip_ws_bounds(s, i);
    let j = skip_ws(s, i);
    let i2 = if j < s.len() && s[j] == '!' {
        j + 1
    } else {
        i
    };
    lemma_read_tok_bounds(TokenKind::AllHostname, s, i2);
}

/// One qualified command entry; the captured text is trimmed, and the
/// wildcard is recognized on the raw captured text.
pub open spec fn parse_cmd_entry(s: Seq<char>, i: int) -> Option<(QualView<AllView<Seq<char>>>, int)> {
    let j = skip_ws(s, i);
    let neg = j < s.len() && s[j] == '!';
    let i2 = if neg {
        j + 1
    } else {
        i
    };
    match spec_read_tok(TokenKind::AllCommand, s, i2) {
        None => None,
        Some(t) => {
            let text = s.subrange(t.0, t.1);
            let target = if text == all_keyword() {
                AllView::<Seq<char>>::All
            } else {
                AllView::Only(spec_trim(text))
            };
            Some(
                (
                    if neg {
                        QualView::Forbid(target)
                    } else {
                        QualView::Allow(target)
                    },
                    t.1,
                ),
            )
        },
    }
}

pub proof fn lemma_cmd_entry_progress(s: Seq<char>, i: int)
    requires
        0 <= i <= s.len(),
    ensures
        match parse_cmd_entry(s, i) {
            Some(t) => i < t.1 <= s.len(),
            None => true,
        },
{
    lemma_skip_ws_bounds(s, i);
    let j = skip_ws(s, i);
    let i2 = if j < s.len() && s[j] == '!' {
        j + 1
    } else {
        i
    };
    lemma_read_tok_bounds(TokenKind::AllCommand, s, i2);
}

fn parse_user_entry_x(s: &str, i: usize) -> (r: Option<(Qualified<All<UserSpecifier>>, usize)>)
    requires
        i as int <= s@.len(),
    ensures
        match (r, parse_user_entry(s@, i as int)) {
            (Option::None, o) => o is None,
            (Option::Some((e, p)), Option::Some(t)) => e@ == t.0 && p as int == t.1 && i < p
                && p as int <= s@.len(),
            _ => false,
        },
{
    let j = skip_ws_x(s, i);
    let n = s.unicode_len();
    let (neg, i2): (bool, usize) = if j < n && s.get_char(j) == '!' {
        (true, j + 1)
    } else {
        (false, i)
    };
    match read_token(TokenKind::AllUserSpec, s, i2) {
        None => None,
        Some((text, e)) => {
            let target: All<UserSpecifier> = if is_all_keyword(text.as_str()) {
                All::All
            } else {
                All::Only(UserSpecifier::from_text(text))
            };
            if neg {
                Some((Qualified::Forbid(target), e))
            } else {
                Some((Qualified::Allow(target), e))
            }
        },
    }
}

fn parse_host_entry_x(s: &str, i: usize) -> (r: Option<(Qualified<All<Hostname>>, usize)>)
    requires
        i as int <= s@.len(),
    ensures
        match (r, parse_host_entry(s@, i as int)) {
            (Option::None, o) => o is None,
            (Option::Some((e, p)), Option::Some(t)) => e@ == t.0 && p as int == t.1 && i < p
                && p as int <= s@.len(),
            _ => false,
        },
{
    let j = skip_ws_x(s, i);
    let n = s.unicode_len();
    let (neg, i2): (bool, usize) = if j < n && s.get_char(j) == '!' {
        (true, j + 1)
    } else {
        (false, i)
    };
    match read_token(TokenKind::AllHostname, s, i2) {
        None => None,
        Some((text, e)) => {
            let target: All<Hostname> = if is_all_keyword(text.as_str()) {
                All::All
            } else {
                All::Only(Hostname(text))
            };
            if neg {
                Some((Qualified::Forbid(target), e))
            } else {
                Some((Qualified::Allow(target), e))
            }
        },
    }
}

fn parse_cmd_entry_x(s: &str, i: usize) -> (r: Option<(Qualified<All<Command>>, usize)>)
    requires
        i as int <= s@.len(),
    ensures
        match (r, parse_cmd_entry(s@, i as int)) {
            (Option::None, o) => o is None,
            (Option::Some((e, p)), Option::Some(t)) => e@ == t.0 && p as int == t.1 && i < p
                && p as int <= s@.len(),
            _ => false,
        },
{
    let j = skip_ws_x(s, i);
    let n = s.unicode_len();
    let (neg, i2): (bool, usize) = if j < n && s.get_char(j) == '!' {
        (true, j + 1)
    } else {
        (false, i)
    };
    match read_token(TokenKind::AllCommand, s, i2) {
        None => None,
        Some((text, e)) => {
            let target: All<Command> = if is_all_keyword(text.as_str()) {
                All::All
            } else {
                All::Only(Command(trim_str(text.as_str())))
            };
            if neg {
                Some((Qualified::Forbid(target), e))
            } else {
                Some((Qualified::Allow(target), e))
            }
        },
    }
}

// --- separator-delimited entry lists ---

/// A non-empty comma-separated list of qualified user entries, holding at
/// most `left` further entries after the first. A list that would exceed
/// its bound is a parse error.
pub open spec fn parse_user_list(s: Seq<char>, i: int, left: nat) -> Option<(Seq<QualView<AllView<UserSpecView>>>, int)>
    decreases s.len() - i when 0 <= i <= s.len() via parse_user_list_dec
{
    match parse_user_entry(s, i) {
        None => None,
        Some(t) => {
            let j = skip_ws(s, t.1);
            if j < s.len() && s[j] == ',' {
                if left == 0 {
                    None
                } else {
                    match parse_user_list(s, j + 1, (left - 1) as nat) {
                        None => None,
                        Some(rest) => Some((seq![t.0] + rest.0, rest.1)),
                    }
                }
            } else {
                Some((seq![t.0], t.1))
            }
        },
    }
}

#[via_fn]
proof fn parse_user_list_dec(s: Seq<char>, i: int, left: nat) {
    lemma_user_entry_progress(s, i);
    if let Some(t) = parse_user_entry(s, i) {
        lemma_skip_ws_bounds(s, t.1);
    }
}

pub proof fn lemma_user_list_progress(s: Seq<char>, i: int, left: nat)
    requires
        0 <= i <= s.len(),
    ensures
        match parse_user_list(s, i, left) {
            Some(t) => i < t.1 <= s.len(),
            None => true,
        },
    decreases s.len() - i,
{
    lemma_user_entry_progress(s, i);
    if let Some(t) = parse_user_entry(s, i) {
        lemma_skip_ws_bounds(s, t.1);
        let j = skip_ws(s, t.1);
        if j < s.len() && s[j] == ',' && left > 0 {
            lemma_user_list_progress(s, j + 1, (left - 1) as nat);
        }
    }
}

/// A possibly empty user list: when no entry can start here, the list is
/// empty and consumes nothing.
pub open spec fn parse_user_list_opt(s: Seq<char>, i: int, left: nat) -> Option<(Seq<QualView<AllView<UserSpecView>>>, int)> {
    if parse_user_entry(s, i) is Some {
        parse_user_list(s, i, left)
    } else {
        Some((Seq::empty(), i))
    }
}

pub proof fn lemma_user_list_opt_progress(s: Seq<char>, i: int, left: nat)
    requires
        0 <= i <= s.len(),
    ensures
        match parse_user_list_opt(s, i, left) {
            Some(t) => i <= t.1 <= s.len(),
            None => true,
        },
{
    lemma_user_list_progress(s, i, left);
}

/// A non-empty comma-separated list of qualified host entries.
pub open spec fn parse_host_list(s: Seq<char>, i: int, left: nat) -> Option<(Seq<QualView<AllView<Seq<char>>>>, int)>
    decreases s.len() - i when 0 <= i <= s.len() via parse_host_list_dec
{
    match parse_host_entry(s, i) {
        None => None,
        Some(t) => {
            let j = skip_ws(s, t.1);
            if j < s.len() && s[j] == ',' {
                if left == 0 {
                    None
                } else {
                    match parse_host_list(s, j + 1, (left - 1) as nat) {
                        None => None,
                        Some(rest) => Some((seq![t.0] + rest.0, rest.1)),
                    }
                }
            } else {
                Some((seq![t.0], t.1))
            }
        },
    }
}

#[via_fn]
proof fn parse_host_list_dec(s: Seq<char>, i: int, left: nat) {
    lemma_host_entry_progress(s, i);
    if let Some(t) = parse_host_entry(s, i) {
        lemma_skip_ws_bounds(s, t.1);
    }
}

pub proof fn lemma_host_list_progress(s: Seq<char>, i: int, left: nat)
    requires
        0 <= i <= s.len(),
    ensures
        match parse_host_list(s, i, left) {
            Some(t) => i < t.1 <= s.len(),
            None => true,
        },
    decreases s.len() - i,
{
    lemma_host_entry_progress(s, i);
    if let Some(t) = parse_host_entry(s, i) {
        lemma_skip_ws_bounds(s, t.1);
        let j = skip_ws(s, t.1);
        if j < s.len() && s[j] == ',' && left > 0 {
            lemma_host_list_progress(s, j + 1, (left - 1) as nat);
        }
    }
}

// --- tags ---

/// Zero or more leading recognized tag keywords, each followed by `:`. An
/// uppercase word that is not a recognized tag followed by `:` starts no
/// tag and consumes nothing.
pub open spec fn parse_tags(s: Seq<char>, i: int) -> (Seq<Tag>, int)
    decreases s.len() - i when 0 <= i <= s.len() via parse_tags_dec
{
    match spec_read_tok(TokenKind::Upper, s, i) {
        None => (Seq::<Tag>::empty(), i),
        Some(t) => {
            if s.subrange(t.0, t.1) == nopasswd_keyword() {
                let j = skip_ws(s, t.1);
                if j < s.len() && s[j] == ':' {
                    let rest = parse_tags(s, j + 1);
                    (seq![Tag::NoPasswd] + rest.0, rest.1)
                } else {
                    (Seq::<Tag>::empty(), i)
                }
            } else {
                (Seq::<Tag>::empty(), i)
            }
        },
    }
}

#[via_fn]
proof fn parse_tags_dec(s: Seq<char>, i: int) {
    lemma_read_tok_bounds(TokenKind::Upper, s, i);
    if let Some(t) = spec_read_tok(TokenKind::Upper, s, i) {
        lemma_skip_ws_bounds(s, t.1);
    }
}

pub proof fn lemma_tags_progress(s: Seq<char>, i: int)
    requires
        0 <= i <= s.len(),
    ensures
        i <= parse_tags(s, i).1 <= s.len(),
    decreases s.len() - i,
{
    lemma_read_tok_bounds(TokenKind::Upper, s, i);
    if let Some(t) = spec_read_tok(TokenKind::Upper, s, i) {
        lemma_skip_ws_bounds(s, t.1);
        if s.subrange(t.0, t.1) == nopasswd_keyword() {
            let j = skip_ws(s, t.1);
            if j < s.len() && s[j] == ':' {
                lemma_tags_progress(s, j + 1);
            }
        }
    }
}

// --- tagged command lists ---

/// A non-empty comma-separated command list. A recognized tag keyword
/// before an entry joins the tags in force, which attach to that entry and
/// to every later entry of the run.
pub open spec fn parse_cmd_list(s: Seq<char>, i: int, cur: Seq<Tag>, left: nat) -> Option<(Seq<CmdSpecView>, int)>
    decreases s.len() - i when 0 <= i <= s.len() via parse_cmd_list_dec
{
    let tg = parse_tags(s, i);
    let cur2 = cur + tg.0;
    match parse_cmd_entry(s, tg.1) {
        None => None,
        Some(t) => {
            let entry = CmdSpecView { tags: cur2, cmd: t.0 };
            let j = skip_ws(s, t.1);
            if j < s.len() && s[j] == ',' {
                if left == 0 {
                    None
                } else {
                    match parse_cmd_list(s, j + 1, cur2, (left - 1) as nat) {
                        None => None,
                        Some(rest) => Some((seq![entry] + rest.0, rest.1)),
                    }
                }
            } else {
                Some((seq![entry], t.1))
            }
        },
    }
}

#[via_fn]
proof fn parse_cmd_list_dec(s: Seq<char>, i: int, cur: Seq<Tag>, left: nat) {
    lemma_tags_progress(s, i);
    let tg = parse_tags(s, i);
    lemma_cmd_entry_progress(s, tg.1);
    if let Some(t) = parse_cmd_entry(s, tg.1) {
        lemma_skip_ws_bounds(s, t.1);
    }
}

pub proof fn lemma_cmd_list_progress(s: Seq<char>, i: int, cur: Seq<Tag>, left: nat)
    requires
        0 <= i <= s.len(),
    ensures
        match parse_cmd_list(s, i, cur, left) {
            Some(t) => i < t.1 <= s.len(),
            None => true,
        },
    decreases s.len() - i,
{
    lemma_tags_progress(s, i);
    let tg = parse_tags(s, i);
    lemma_cmd_entry_progress(s, tg.1);
    if let Some(t) = parse_cmd_entry(s, tg.1) {
        lemma_skip_ws_bounds(s, t.1);
        let j = skip_ws(s, t.1);
        if j < s.len() && s[j] == ',' && left > 0 {
            lemma_cmd_list_progress(s, j + 1, cur + tg.0, (left - 1) as nat);
        }
    }
}

// --- executable list parsers ---

fn parse_user_list_x(s: &str, i: usize, left: usize) -> (r: Option<(Vec<Qualified<All<UserSpecifier>>>, usize)>)
    requires
        i as int <= s@.len(),
    ensures
        match (r, parse_user_list(s@, i as int, left as nat)) {
            (Option::None, o) => o is None,
            (Option::Some((v, p)), Option::Some(t)) => view_seq(v@) == t.0 && p as int == t.1
                && i < p && p as int <= s@.len(),
            _ => false,
        },
    decreases s@.len() - i,
{
    match parse_user_entry_x(s, i) {
        None => None,
        Some((e, p)) => {
            let j = skip_ws_x(s, p);
            let n = s.unicode_len();
            if j < n && s.get_char(j) == ',' {
                if left == 0 {
                    return None;
                }
                match parse_user_list_x(s, j + 1, left - 1) {
                    None => None,
                    Some((mut v, q)) => {
                        let ghost old_v = v@;
                        v.insert(0, e);
                        proof {
                            lemma_view_seq_insert_front(old_v, v@[0]);
                        }
                        Some((v, q))
                    },
                }
            } else {
                let mut v: Vec<Qualified<All<UserSpecifier>>> = Vec::new();
                v.push(e);
                proof {
                    assert(view_seq(v@) =~= seq![v@[0]@]);
                }
                Some((v, p))
            }
        },
    }
}

fn parse_user_list_opt_x(s: &str, i: usize, left: usize) -> (r: Option<(Vec<Qualified<All<UserSpecifier>>>, usize)>)
    requires
        i as int <= s@.len(),
    ensures
        match (r, parse_user_list_opt(s@, i as int, left as nat)) {
            (Option::None, o) => o is None,
            (Option::Some((v, p)), Option::Some(t)) => view_seq(v@) == t.0 && p as int == t.1
                && i <= p && p as int <= s@.len(),
            _ => false,
        },
{
    match parse_user_entry_x(s, i) {
        None => {
            let v: Vec<Qualified<All<UserSpecifier>>> = Vec::new();
            proof {
                assert(view_seq(v@) =~= Seq::<QualView<AllView<UserSpecView>>>::empty());
            }
            Some((v, i))
        },
        Some(_) => parse_user_list_x(s, i, left),
    }
}

fn parse_host_list_x(s: &str, i: usize, left: usize) -> (r: Option<(Vec<Qualified<All<Hostname>>>, usize)>)
    requires
        i as int <= s@.len(),
    ensures
        match (r, parse_host_list(s@, i as int, left as nat)) {
            (Option::None, o) => o is None,
            (Option::Some((v, p)), Option::Some(t)) => view_seq(v@) == t.0 && p as int == t.1
                && i < p && p as int <= s@.len(),
            _ => false,
        },
    decreases s@.len() - i,
{
    match parse_host_entry_x(s, i) {
        None => None,
        Some((e, p)) => {
            let j = skip_ws_x(s, p);
            let n = s.unicode_len();
            if j < n && s.get_char(j) == ',' {
                if left == 0 {
                    return None;
                }
                match parse_host_list_x(s, j + 1, left - 1) {
                    None => None,
                    Some((mut v, q)) => {
                        let ghost old_v = v@;
                        v.insert(0, e);
                        proof {
                            lemma_view_seq_insert_front(old_v, v@[0]);
                        }
                        Some((v, q))
                    },
                }
            } else {
                let mut v: Vec<Qualified<All<Hostname>>> = Vec::new();
                v.push(e);
                proof {
                    assert(view_seq(v@) =~= seq![v@[0]@]);
                }
                Some((v, p))
            }
        },
    }
}

fn parse_tags_x(s: &str, i: usize) -> (r: (Vec<Tag>, usize))
    requires
        i as int <= s@.len(),
    ensures
        r.0@ == parse_tags(s@, i as int).0,
        r.1 as int == parse_tags(s@, i as int).1,
        i <= r.1,
        r.1 as int <= s@.len(),
    decreases s@.len() - i,
{
    match read_token(TokenKind::Upper, s, i) {
        None => (Vec::new(), i),
        Some((text, e)) => {
            if is_nopasswd_keyword(text.as_str()) {
                let j = skip_ws_x(s, e);
                let n = s.unicode_len();
                if j < n && s.get_char(j) == ':' {
                    let (mut rest, p) = parse_tags_x(s, j + 1);
                    let ghost old_rest = rest@;
                    rest.insert(0, Tag::NoPasswd);
                    proof {
                        assert(rest@ =~= seq![Tag::NoPasswd] + old_rest);
                    }
                    (rest, p)
                } else {
                    (Vec::new(), i)
                }
            } else {
                (Vec::new(), i)
            }
        },
    }
}

fn clone_tags(v: &Vec<Tag>) -> (r: Vec<Tag>)
    ensures
        r@ == v@,
{
    let mut r: Vec<Tag> = Vec::new();
    let mut k: usize = 0;
    while k < v.len()
        invariant
            k <= v.len(),
            r@ == v@.take(k as int),
        decreases v.len() - k,
    {
        r.push(v[k]);
        proof {
            assert(v@.take(k + 1).drop_last() =~= v@.take(k as int));
            assert(r@ =~= v@.take(k + 1));
        }
        k += 1;
    }
    proof {
        assert(v@.take(v@.len() as int) =~= v@);
    }
    r
}

fn parse_cmd_list_x(s: &str, i: usize, cur: Vec<Tag>, left: usize) -> (r: Option<(Vec<CmdSpec>, usize)>)
    requires
        i as int <= s@.len(),
    ensures
        match (r, parse_cmd_list(s@, i as int, cur@, left as nat)) {
            (Option::None, o) => o is None,
            (Option::Some((v, p)), Option::Some(t)) => view_seq(v@) == t.0 && p as int == t.1
                && i < p && p as int <= s@.len(),
            _ => false,
        },
    decreases s@.len() - i,
{
    let (mut newt, i1) = parse_tags_x(s, i);
    let mut cur2 = cur;
    cur2.append(&mut newt);
    match parse_cmd_entry_x(s, i1) {
        None => None,
        Some((c, p)) => {
            let j = skip_ws_x(s, p);
            let n = s.unicode_len();
            if j < n && s.get_char(j) == ',' {
                if left == 0 {
                    return None;
                }
                let entry_tags = clone_tags(&cur2);
                match parse_cmd_list_x(s, j + 1, cur2, left - 1) {
                    None => None,
                    Some((mut v, q)) => {
                        let entry = CmdSpec { tags: entry_tags, cmd: c };
                        let ghost old_v = v@;
                        v.insert(0, entry);
                        proof {
                            lemma_view_seq_insert_front(old_v, v@[0]);
                        }
                        Some((v, q))
                    },
                }
            } else {
                let entry = CmdSpec { tags: cur2, cmd: c };
                let mut v: Vec<CmdSpec> = Vec::new();
                v.push(entry);
                proof {
                    assert(view_seq(v@) =~= seq![v@[0]@]);
                }
                Some((v, p))
            }
        },
    }
}

// --- run-as scope, clauses, the whole line ---

/// The optional `:`-introduced target-group list inside a run-as scope.
pub open spec fn parse_runas_groups(s: Seq<char>, i: int) -> Option<(Seq<QualView<AllView<UserSpecView>>>, int)> {
    let k = skip_ws(s, i);
    if k < s.len() && s[k] == ':' {
        parse_user_list_opt(s, k + 1, LIST_LIMIT as nat)
    } else {
        Some((Seq::empty(), i))
    }
}

pub proof fn lemma_runas_groups_progress(s: Seq<char>, i: int)
    requires
        0 <= i <= s.len(),
    ensures
        match parse_runas_groups(s, i) {
            Some(t) => i <= t.1 <= s.len(),
            None => true,
        },
{
    lemma_skip_ws_bounds(s, i);
    let k = skip_ws(s, i);
    if k < s.len() && s[k] == ':' {
        lemma_user_list_opt_progress(s, k + 1, LIST_LIMIT as nat);
    }
}

/// The optional parenthesized run-as scope: two possibly empty user lists
/// separated by `:`. Without parentheses the scope is absent.
pub open spec fn parse_runas(s: Seq<char>, i: int) -> Option<(Option<RunAsView>, int)> {
    let j = skip_ws(s, i);
    if j < s.len() && s[j] == '(' {
        match parse_user_list_opt(s, j + 1, LIST_LIMIT as nat) {
            None => None,
            Some(u) => match parse_runas_groups(s, u.1) {
                None => None,
                Some(g) => {
                    let e = skip_ws(s, g.1);
                    if e < s.len() && s[e] == ')' {
                        Some((Some(RunAsView { users: u.0, groups: g.0 }), e + 1))
                    } else {
                        None
                    }
                },
            },
        }
    } else {
        Some((None, i))
    }
}

pub proof fn lemma_runas_progress(s: Seq<char>, i: int)
    requires
        0 <= i <= s.len(),
    ensures
        match parse_runas(s, i) {
            Some(t) => i <= t.1 <= s.len(),
            None => true,
        },
{
    lemma_skip_ws_bounds(s, i);
    let j = skip_ws(s, i);
    if j < s.len() && s[j] == '(' {
        lemma_user_list_opt_progress(s, j + 1, LIST_LIMIT as nat);
        if let Some(u) = parse_user_list_opt(s, j + 1, LIST_LIMIT as nat) {
            lemma_runas_groups_progress(s, u.1);
            if let Some(g) = parse_runas_groups(s, u.1) {
                lemma_skip_ws_bounds(s, g.1);
            }
        }
    }
}

fn parse_runas_groups_x(s: &str, i: usize) -> (r: Option<(Vec<Qualified<All<UserSpecifier>>>, usize)>)
    requires
        i as int <= s@.len(),
    ensures
        match (r, parse_runas_groups(s@, i as int)) {
            (Option::None, o) => o is None,
            (Option::Some((v, p)), Option::Some(t)) => view_seq(v@) == t.0 && p as int == t.1
                && i <= p && p as int <= s@.len(),
            _ => false,
        },
{
    let k = skip_ws_x(s, i);
    let n = s.unicode_len();
    if k < n && s.get_char(k) == ':' {
        parse_user_list_opt_x(s, k + 1, LIST_LIMIT)
    } else {
        let v: Vec<Qualified<All<UserSpecifier>>> = Vec::new();
        proof {
            assert(view_seq(v@) =~= Seq::<QualView<AllView<UserSpecView>>>::empty());
        }
        Some((v, i))
    }
}

fn parse_runas_x(s: &str, i: usize) -> (r: Option<(Option<RunAs>, usize)>)
    requires
        i as int <= s@.len(),
    ensures
        match (r, parse_runas(s@, i as int)) {
            (Option::None, o) => o is None,
            (Option::Some((ra, p)), Option::Some(t)) => p as int == t.1 && i <= p
                && p as int <= s@.len() && (match (ra, t.0) {
                (Option::Some(scope), Option::Some(sv)) => scope@ == sv,
                (Option::None, Option::None) => true,
                _ => false,
            }),
            _ => false,
        },
{
    let j = skip_ws_x(s, i);
    let n = s.unicode_len();
    if j < n && s.get_char(j) == '(' {
        match parse_user_list_opt_x(s, j + 1, LIST_LIMIT) {
            None => None,
            Some((users, p1)) => match parse_runas_groups_x(s, p1) {
                None => None,
                Some((groups, p2)) => {
                    let e = skip_ws_x(s, p2);
                    if e < n && s.get_char(e) == ')' {
                        Some((Some(RunAs { users, groups }), e + 1))
                    } else {
                        None
                    }
                },
            },
        }
    } else {
        Some((None, i))
    }
}

/// One clause: a host list, `=`, an optional run-as scope and a tagged
/// command list.
pub open spec fn parse_clause(s: Seq<char>, i: int) -> Option<(ClauseView, int)> {
    match parse_host_list(s, i, LIST_LIMIT as nat) {
        None => None,
        Some(h) => {
            let j = skip_ws(s, h.1);
            if j < s.len() && s[j] == '=' {
                match parse_runas(s, j + 1) {
                    None => None,
                    Some(ra) => match parse_cmd_list(s, ra.1, Seq::empty(), LIST_LIMIT as nat) {
                        None => None,
                        Some(c) => Some((ClauseView { hosts: h.0, runas: ra.0, cmds: c.0 }, c.1)),
                    },
                }
            } else {
                None
            }
        },
    }
}

pub proof fn lemma_clause_progress(s: Seq<char>, i: int)
    requires
        0 <= i <= s.len(),
    ensures
        match parse_clause(s, i) {
            Some(t) => i < t.1 <= s.len(),
            None => true,
        },
{
    lemma_host_list_progress(s, i, LIST_LIMIT as nat);
    if let Some(h) = parse_host_list(s, i, LIST_LIMIT as nat) {
        lemma_skip_ws_bounds(s, h.1);
        let j = skip_ws(s, h.1);
        if j < s.len() && s[j] == '=' {
            lemma_runas_progress(s, j + 1);
            if let Some(ra) = parse_runas(s, j + 1) {
                lemma_cmd_list_progress(s, ra.1, Seq::empty(), LIST_LIMIT as nat);
            }
        }
    }
}

fn parse_clause_x(s: &str, i: usize) -> (r: Option<(Clause, usize)>)
    requires
        i as int <= s@.len(),
    ensures
        match (r, parse_clause(s@, i as int)) {
            (Option::None, o) => o is None,
            (Option::Some((c, p)), Option::Some(t)) => c@ == t.0 && p as int == t.1 && i < p
                && p as int <= s@.len(),
            _ => false,
        },
{
    match parse_host_list_x(s, i, LIST_LIMIT) {
        None => None,
        Some((hosts, p0)) => {
            let j = skip_ws_x(s, p0);
            let n = s.unicode_len();
            if j < n && s.get_char(j) == '=' {
                match parse_runas_x(s, j + 1) {
                    None => None,
                    Some((runas, p1)) => match parse_cmd_list_x(s, p1, Vec::new(), LIST_LIMIT) {
                        None => None,
                        Some((cmds, p2)) => Some((Clause { hosts, runas, cmds }, p2)),
                    },
                }
            } else {
                None
            }
        },
    }
}

/// A non-empty comma-separated list of clauses.
pub open spec fn parse_clause_list(s: Seq<char>, i: int, left: nat) -> Option<(Seq<ClauseView>, int)>
    decreases s.len() - i when 0 <= i <= s.len() via parse_clause_list_dec
{
    match parse_clause(s, i) {
        None => None,
        Some(t) => {
            let j = skip_ws(s, t.1);
            if j < s.len() && s[j] == ',' {
                if left == 0 {
                    None
                } else {
                    match parse_clause_list(s, j + 1, (left - 1) as nat) {
                        None => None,
                        Some(rest) => Some((seq![t.0] + rest.0, rest.1)),
                    }
                }
            } else {
                Some((seq![t.0], t.1))
            }
        },
    }
}

#[via_fn]
proof fn parse_clause_list_dec(s: Seq<char>, i: int, left: nat) {
    lemma_clause_progress(s, i);
    if let Some(t) = parse_clause(s, i) {
        lemma_skip_ws_bounds(s, t.1);
    }
}

pub proof fn lemma_clause_list_progress(s: Seq<char>, i: int, left: nat)
    requires
        0 <= i <= s.len(),
    ensures
        match parse_clause_list(s, i, left) {
            Some(t) => i < t.1 <= s.len(),
            None => true,
        },
    decreases s.len() - i,
{
    lemma_clause_progress(s, i);
    if let Some(t) = parse_clause(s, i) {
        lemma_skip_ws_bounds(s, t.1);
        let j = skip_ws(s, t.1);
        if j < s.len() && s[j] == ',' && left > 0 {
            lemma_clause_list_progress(s, j + 1, (left - 1) as nat);
        }
    }
}

fn parse_clause_list_x(s: &str, i: usize, left: usize) -> (r: Option<(Vec<Clause>, usize)>)
    requires
        i as int <= s@.len(),
    ensures
        match (r, parse_clause_list(s@, i as int, left as nat)) {
            (Option::None, o) => o is None,
            (Option::Some((v, p)), Option::Some(t)) => view_seq(v@) == t.0 && p as int == t.1
                && i < p && p as int <= s@.len(),
            _ => false,
        },
    decreases s@.len() - i,
{
    match parse_clause_x(s, i) {
        None => None,
        Some((c, p)) => {
            let j = skip_ws_x(s, p);
            let n = s.unicode_len();
            if j < n && s.get_char(j) == ',' {
                if left == 0 {
                    return None;
                }
                match parse_clause_list_x(s, j + 1, left - 1) {
                    None => None,
                    Some((mut v, q)) => {
                        let ghost old_v = v@;
                        v.insert(0, c);
                        proof {
                            lemma_view_seq_insert_front(old_v, v@[0]);
                        }
                        Some((v, q))
                    },
                }
            } else {
                let mut v: Vec<Clause> = Vec::new();
                v.push(c);
                proof {
                    assert(view_seq(v@) =~= seq![v@[0]@]);
                }
                Some((v, p))
            }
        },
    }
}

/// One whole rule line: a user list followed by a clause list.
pub open spec fn parse_rule(s: Seq<char>, i: int) -> Option<(RuleView, int)> {
    match parse_user_list(s, i, LIST_LIMIT as nat) {
        None => None,
        Some(u) => match parse_clause_list(s, u.1, LIST_LIMIT as nat) {
            None => None,
            Some(c) => Some((RuleView { users: u.0, clauses: c.0 }, c.1)),
        },
    }
}

/// What one line of policy text denotes: a rule exactly when the grammar
/// consumes the whole line (trailing whitespace aside), and nothing
/// otherwise.
pub open spec fn parse_line_spec(s: Seq<char>) -> Option<RuleView> {
    match parse_rule(s, 0) {
        None => None,
        Some(t) => if skip_ws(s, t.1) == s.len() {
            Some(t.0)
        } else {
            None
        },
    }
}

/// Parse one policy line; unconsumed trailing text rejects the line.
pub fn parse_line(s: &str) -> (r: Option<Rule>)
    ensures
        match (r, parse_line_spec(s@)) {
            (Option::None, o) => o is None,
            (Option::Some(rule), Option::Some(rv)) => rule@ == rv,
            _ => false,
        },
{
    match parse_user_list_x(s, 0, LIST_LIMIT) {
        None => None,
        Some((users, p0)) => match parse_clause_list_x(s, p0, LIST_LIMIT) {
            None => None,
            Some((clauses, p1)) => {
                let e = skip_ws_x(s, p1);
                let n = s.unicode_len();
                if e == n {
                    Some(Rule { users, clauses })
                } else {
                    None
                }
            },
        },
    }
}

} // verus!
