//! The textual form of the config store, and its codec.
//!
//! The store is kept on disk as a human-editable key/value document:
//! a `server_token` line followed by one `[[installers]]` table per
//! installed instance.  `doc_of` gives the exact text written for a
//! store, `spec_parse_doc` the store read back from a text, and
//! `lemma_doc_round_trip` proves that reading what was written yields
//! the very store it was written for.

use vstd::prelude::*;
use vstd::string::*;
use vstd::slice::*;
use crate::config::{Config, ConfigView, InstallerConfig, InstallerView, installer_views};

verus! {

/// The characters between a key and its quoted value: ` = "`.
pub open spec fn eq_quote_chars() -> Seq<char> {
    seq![' ', '=', ' ', '"']
}

/// The characters closing a quoted value line: `"` then a line break.
pub open spec fn quote_nl_chars() -> Seq<char> {
    seq!['"', '\n']
}

/// The characters between a key and an unquoted value: ` = `.
pub open spec fn eq_space_chars() -> Seq<char> {
    seq![' ', '=', ' ']
}

/// A single line break.
pub open spec fn nl_chars() -> Seq<char> {
    seq!['\n']
}

/// The line opening one installer table, framed by line breaks.
pub open spec fn table_header_chars() -> Seq<char> {
    seq!['\n', '[', '[', 'i', 'n', 's', 't', 'a', 'l', 'l', 'e', 'r', 's', ']', ']', '\n']
}

/// How one character of a value is written: a quote or a backslash is
/// preceded by a backslash, every other character stands as it is.
pub open spec fn esc_char(c: char) -> Seq<char> {
    if c == '"' || c == '\\' {
        seq!['\\', c]
    } else {
        seq![c]
    }
}

/// The escaped form of a value, fit to stand between quotes.
pub open spec fn esc(v: Seq<char>) -> Seq<char>
    decreases v.len(),
{
    if v.len() == 0 {
        Seq::empty()
    } else {
        esc_char(v[0]) + esc(v.drop_first())
    }
}

/// One `key = "value"` line, the value escaped.
pub open spec fn field_line(key: Seq<char>, value: Seq<char>) -> Seq<char> {
    key + eq_quote_chars() + esc(value) + quote_nl_chars()
}

/// `c` is a decimal digit.
pub open spec fn is_digit(c: char) -> bool {
    c == '0' || c == '1' || c == '2' || c == '3' || c == '4' || c == '5' || c == '6' || c == '7'
        || c == '8' || c == '9'
}

/// The digit character for `d` (a single digit).
pub open spec fn digit_char(d: nat) -> char {
    if d == 0 {
        '0'
    } else if d == 1 {
        '1'
    } else if d == 2 {
        '2'
    } else if d == 3 {
        '3'
    } else if d == 4 {
        '4'
    } else if d == 5 {
        '5'
    } else if d == 6 {
        '6'
    } else if d == 7 {
        '7'
    } else if d == 8 {
        '8'
    } else {
        '9'
    }
}

/// The numeric value of a digit character.
pub open spec fn digit_val(c: char) -> nat {
    if c == '0' {
        0
    } else if c == '1' {
        1
    } else if c == '2' {
        2
    } else if c == '3' {
        3
    } else if c == '4' {
        4
    } else if c == '5' {
        5
    } else if c == '6' {
        6
    } else if c == '7' {
        7
    } else if c == '8' {
        8
    } else {
        9
    }
}

/// The decimal rendering of `n`, most significant digit first.
pub open spec fn dec_digits(n: nat) -> Seq<char>
    decreases n,
{
    if n < 10 {
        seq![digit_char(n)]
    } else {
        dec_digits(n / 10).push(digit_char(n % 10))
    }
}

/// The value of a digit string, most significant digit first.
pub open spec fn dec_val(s: Seq<char>) -> nat
    decreases s.len(),
{
    if s.len() == 0 {
        0
    } else {
        dec_val(s.drop_last()) * 10 + digit_val(s.last())
    }
}

/// The longest prefix of `s` made of digits.
pub open spec fn digits_prefix(s: Seq<char>) -> Seq<char>
    decreases s.len(),
{
    if s.len() > 0 && is_digit(s[0]) {
        seq![s[0]] + digits_prefix(s.drop_first())
    } else {
        Seq::empty()
    }
}

/// The `app_run_port = <decimal>` line.
pub open spec fn port_line(port: u32) -> Seq<char> {
    "app_run_port"@ + eq_space_chars() + dec_digits(port as nat) + nl_chars()
}

/// The text of one installer table.
pub open spec fn installer_text(v: InstallerView) -> Seq<char> {
    table_header_chars() + field_line("url"@, v.url) + field_line(
        "installer_token"@,
        v.installer_token,
    ) + field_line("app_name"@, v.app_name) + field_line("app_version"@, v.app_version)
        + field_line("app_file_name"@, v.app_file_name) + port_line(v.app_run_port) + field_line(
        "jdk_name"@,
        v.jdk_name,
    ) + field_line("jdk_version"@, v.jdk_version) + field_line("jdk_file_name"@, v.jdk_file_name)
}

/// The text of a sequence of installer tables, in order.
pub open spec fn installers_text(s: Seq<InstallerView>) -> Seq<char>
    decreases s.len(),
{
    if s.len() == 0 {
        Seq::empty()
    } else {
        installer_text(s.first()) + installers_text(s.drop_first())
    }
}

/// The full document written for a store: the identity line, then one
/// table per installer.
pub open spec fn doc_of(c: ConfigView) -> Seq<char> {
    field_line("server_token"@, c.server_token) + installers_text(c.installers)
}

/// `s` begins with `pre`.
pub open spec fn spec_starts_with(s: Seq<char>, pre: Seq<char>) -> bool {
    s.len() >= pre.len() && s.subrange(0, pre.len() as int) == pre
}

/// The index of the first `c` in `s`, or `-1` if none occurs.
pub open spec fn find_char(s: Seq<char>, c: char) -> int
    decreases s.len(),
{
    if s.len() == 0 {
        -1
    } else if s[0] == c {
        0
    } else {
        let r = find_char(s.drop_first(), c);
        if r == -1 {
            -1
        } else {
            r + 1
        }
    }
}

/// Reads a quoted value up to its closing quote, undoing the escapes;
/// yields the value and what stands after the quote.  A stray
/// backslash, an unknown escape, or a missing closing quote is a
/// malformed value.
pub open spec fn parse_qvalue(s: Seq<char>) -> Option<(Seq<char>, Seq<char>)>
    decreases s.len(),
{
    if s.len() == 0 {
        None
    } else if s[0] == '"' {
        Some((Seq::empty(), s.skip(1)))
    } else if s[0] == '\\' {
        if s.len() >= 2 && (s[1] == '"' || s[1] == '\\') {
            match parse_qvalue(s.skip(2)) {
                None => None,
                Some((v, r)) => Some((seq![s[1]] + v, r)),
            }
        } else {
            None
        }
    } else {
        match parse_qvalue(s.skip(1)) {
            None => None,
            Some((v, r)) => Some((seq![s[0]] + v, r)),
        }
    }
}

/// `o` with `prefix` put before its value: what a partly read value
/// amounts to once the rest of it is read.
pub open spec fn qvalue_glue(prefix: Seq<char>, o: Option<(Seq<char>, Seq<char>)>) -> Option<
    (Seq<char>, Seq<char>),
> {
    match o {
        None => None,
        Some((v, r)) => Some((prefix + v, r)),
    }
}

/// Reads one `key = "value"` line off the front of `s`; yields the
/// value, unescaped, and the remainder.
pub open spec fn spec_parse_field(s: Seq<char>, key: Seq<char>) -> Option<(Seq<char>, Seq<char>)> {
    let pre = key + eq_quote_chars();
    if spec_starts_with(s, pre) {
        match parse_qvalue(s.skip(pre.len() as int)) {
            None => None,
            Some((v, r)) => if r.len() >= 1 && r[0] == '\n' {
                Some((v, r.skip(1)))
            } else {
                None
            },
        }
    } else {
        None
    }
}

/// Reads the `app_run_port = <decimal>` line off the front of `s`.
pub open spec fn spec_parse_port(s: Seq<char>) -> Option<(u32, Seq<char>)> {
    let pre = "app_run_port"@ + eq_space_chars();
    if spec_starts_with(s, pre) {
        let rest = s.skip(pre.len() as int);
        let d = digits_prefix(rest);
        if d.len() >= 1 && d.len() < rest.len() && rest[d.len() as int] == '\n' && dec_val(d)
            <= u32::MAX {
            Some(((dec_val(d) as u32), rest.skip(d.len() + 1 as int)))
        } else {
            None
        }
    } else {
        None
    }
}

/// Reads one installer table off the front of `s`.
#[verifier::opaque]
pub open spec fn spec_parse_installer(s: Seq<char>) -> Option<(InstallerView, Seq<char>)> {
    if spec_starts_with(s, table_header_chars()) {
        let s0 = s.skip(table_header_chars().len() as int);
        match spec_parse_field(s0, "url"@) {
            None => None,
            Some((url, s1)) => match spec_parse_field(s1, "installer_token"@) {
                None => None,
                Some((installer_token, s2)) => match spec_parse_field(s2, "app_name"@) {
                    None => None,
                    Some((app_name, s3)) => match spec_parse_field(s3, "app_version"@) {
                        None => None,
                        Some((app_version, s4)) => match spec_parse_field(s4, "app_file_name"@) {
                            None => None,
                            Some((app_file_name, s5)) => match spec_parse_port(s5) {
                                None => None,
                                Some((app_run_port, s6)) => match spec_parse_field(
                                    s6,
                                    "jdk_name"@,
                                ) {
                                    None => None,
                                    Some((jdk_name, s7)) => match spec_parse_field(
                                        s7,
                                        "jdk_version"@,
                                    ) {
                                        None => None,
                                        Some((jdk_version, s8)) => match spec_parse_field(
                                            s8,
                                            "jdk_file_name"@,
                                        ) {
                                            None => None,
                                            Some((jdk_file_name, s9)) => Some(
                                                (
                                                    InstallerView {
                                                        url,
                                                        installer_token,
                                                        app_name,
                                                        app_version,
                                                        app_file_name,
                                                        app_run_port,
                                                        jdk_name,
                                                        jdk_version,
                                                        jdk_file_name,
                                                    },
                                                    s9,
                                                ),
                                            ),
                                        },
                                    },
                                },
                            },
                        },
                    },
                },
            },
        }
    } else {
        None
    }
}

/// Reads installer tables until `s` is exhausted.
pub open spec fn spec_parse_installers(s: Seq<char>) -> Option<Seq<InstallerView>>
    decreases s.len(),
{
    if s.len() == 0 {
        Some(Seq::empty())
    } else {
        match spec_parse_installer(s) {
            None => None,
            Some((v, rest)) => if rest.len() < s.len() {
                match spec_parse_installers(rest) {
                    None => None,
                    Some(tail) => Some(seq![v] + tail),
                }
            } else {
                None
            },
        }
    }
}

/// Reads a whole document: the identity line, then the installer tables.
pub open spec fn spec_parse_doc(s: Seq<char>) -> Option<ConfigView> {
    match spec_parse_field(s, "server_token"@) {
        None => None,
        Some((server_token, rest)) => match spec_parse_installers(rest) {
            None => None,
            Some(installers) => Some(ConfigView { server_token, installers }),
        },
    }
}

proof fn lemma_find_found(s: Seq<char>, c: char, i: int)
    requires
        0 <= i < s.len(),
        s[i] == c,
        forall|k: int| 0 <= k < i ==> s[k] != c,
    ensures
        find_char(s, c) == i,
    decreases i,
{
    if i > 0 {
        assert(forall|k: int| 0 <= k < s.drop_first().len() ==> s.drop_first()[k] == s[k + 1]);
        lemma_find_found(s.drop_first(), c, i - 1);
    }
}

proof fn lemma_dec_digits(n: nat)
    ensures
        dec_digits(n).len() >= 1,
        forall|i: int| 0 <= i < dec_digits(n).len() ==> is_digit(#[trigger] dec_digits(n)[i]),
        dec_val(dec_digits(n)) == n,
    decreases n,
{
    if n < 10 {
        let s = dec_digits(n);
        assert(s.drop_last() =~= Seq::<char>::empty());
        assert(dec_val(Seq::<char>::empty()) == 0);
        assert(s.last() == digit_char(n));
        assert(digit_val(digit_char(n)) == n);
    } else {
        lemma_dec_digits(n / 10);
        let d = dec_digits(n / 10);
        let w = d.push(digit_char(n % 10));
        assert(w.drop_last() =~= d);
        assert(w.last() == digit_char(n % 10));
        assert(digit_val(digit_char(n % 10)) == n % 10);
        assert(dec_val(w) == dec_val(d) * 10 + n % 10);
        assert((n / 10) * 10 + n % 10 == n);
    }
}

proof fn lemma_digits_prefix(s: Seq<char>, k: int)
    requires
        0 <= k <= s.len(),
        forall|j: int| 0 <= j < k ==> is_digit(#[trigger] s[j]),
        k == s.len() || !is_digit(s[k]),
    ensures
        digits_prefix(s) == s.take(k),
    decreases k,
{
    if k == 0 {
        assert(s.take(0) =~= Seq::<char>::empty());
    } else {
        assert(forall|j: int| 0 <= j < s.drop_first().len() ==> s.drop_first()[j] == s[j + 1]);
        lemma_digits_prefix(s.drop_first(), k - 1);
        assert(seq![s[0]] + s.drop_first().take(k - 1) =~= s.take(k));
    }
}

proof fn lemma_parse_qvalue_rt(v: Seq<char>, rest: Seq<char>)
    ensures
        parse_qvalue(esc(v) + seq!['"'] + rest) == Some((v, rest)),
    decreases v.len(),
{
    if v.len() == 0 {
        let s = esc(v) + seq!['"'] + rest;
        assert(s =~= seq!['"'] + rest);
        assert(s[0] == '"');
        assert(s.skip(1) =~= rest);
    } else {
        let c = v[0];
        let tail = v.drop_first();
        lemma_parse_qvalue_rt(tail, rest);
        let s = esc(v) + seq!['"'] + rest;
        let s_tail = esc(tail) + seq!['"'] + rest;
        if c == '"' || c == '\\' {
            assert(s =~= seq!['\\', c] + s_tail);
            assert(s[0] == '\\');
            assert(s[1] == c);
            assert(s.skip(2) =~= s_tail);
            assert(seq![c] + tail =~= v);
        } else {
            assert(s =~= seq![c] + s_tail);
            assert(s[0] == c);
            assert(s.skip(1) =~= s_tail);
            assert(seq![c] + tail =~= v);
        }
    }
}

proof fn lemma_parse_field_rt(key: Seq<char>, v: Seq<char>, rest: Seq<char>)
    ensures
        spec_parse_field(field_line(key, v) + rest, key) == Some((v, rest)),
{
    let pre = key + eq_quote_chars();
    let s = field_line(key, v) + rest;
    assert(s.subrange(0, pre.len() as int) =~= pre);
    let rest0 = s.skip(pre.len() as int);
    let after = seq!['\n'] + rest;
    assert(rest0 =~= esc(v) + seq!['"'] + after);
    lemma_parse_qvalue_rt(v, after);
    assert(after[0] == '\n');
    assert(after.skip(1) =~= rest);
}

proof fn lemma_parse_port_rt(port: u32, rest: Seq<char>)
    ensures
        spec_parse_port(port_line(port) + rest) == Some((port, rest)),
{
    let pre = "app_run_port"@ + eq_space_chars();
    let dd = dec_digits(port as nat);
    lemma_dec_digits(port as nat);
    let s = port_line(port) + rest;
    assert(s.len() == pre.len() + dd.len() + 1 + rest.len());
    assert(s.subrange(0, pre.len() as int) =~= pre);
    let rest0 = s.skip(pre.len() as int);
    assert(rest0.len() == dd.len() + 1 + rest.len());
    assert(forall|k: int| 0 <= k < dd.len() ==> rest0[k] == dd[k]);
    assert(rest0[dd.len() as int] == '\n');
    assert(!is_digit('\n'));
    lemma_digits_prefix(rest0, dd.len() as int);
    assert(rest0.take(dd.len() as int) =~= dd);
    assert(digits_prefix(rest0) == dd);
    assert(dec_val(dd) == port as nat);
    assert(rest0.skip(dd.len() + 1 as int) =~= rest);
}

pub proof fn lemma_assoc<A>(a: Seq<A>, b: Seq<A>, c: Seq<A>)
    ensures
        (a + b) + c == a + (b + c),
{
    assert((a + b) + c =~= a + (b + c));
}

proof fn lemma_parse_installer_rt(v: InstallerView, rest: Seq<char>)
    ensures
        spec_parse_installer(installer_text(v) + rest) == Some((v, rest)),
{
    reveal(spec_parse_installer);
    let s = installer_text(v) + rest;
    let h = table_header_chars();
    let f1 = field_line("url"@, v.url);
    let f2 = field_line("installer_token"@, v.installer_token);
    let f3 = field_line("app_name"@, v.app_name);
    let f4 = field_line("app_version"@, v.app_version);
    let f5 = field_line("app_file_name"@, v.app_file_name);
    let f6 = port_line(v.app_run_port);
    let f7 = field_line("jdk_name"@, v.jdk_name);
    let f8 = field_line("jdk_version"@, v.jdk_version);
    let f9 = field_line("jdk_file_name"@, v.jdk_file_name);
    let r9 = rest;
    let r8 = f9 + r9;
    let r7 = f8 + r8;
    let r6 = f7 + r7;
    let r5 = f6 + r6;
    let r4 = f5 + r5;
    let r3 = f4 + r4;
    let r2 = f3 + r3;
    let r1 = f2 + r2;
    let r0 = f1 + r1;
    assert(installer_text(v) == h + f1 + f2 + f3 + f4 + f5 + f6 + f7 + f8 + f9);
    lemma_assoc(h + f1 + f2 + f3 + f4 + f5 + f6 + f7 + f8, f9, r9);
    lemma_assoc(h + f1 + f2 + f3 + f4 + f5 + f6 + f7, f8, r8);
    lemma_assoc(h + f1 + f2 + f3 + f4 + f5 + f6, f7, r7);
    lemma_assoc(h + f1 + f2 + f3 + f4 + f5, f6, r6);
    lemma_assoc(h + f1 + f2 + f3 + f4, f5, r5);
    lemma_assoc(h + f1 + f2 + f3, f4, r4);
    lemma_assoc(h + f1 + f2, f3, r3);
    lemma_assoc(h + f1, f2, r2);
    lemma_assoc(h, f1, r1);
    assert(s == h + r0);
    assert(s.subrange(0, h.len() as int) =~= h);
    assert(s.skip(h.len() as int) =~= r0);
    lemma_parse_field_rt("url"@, v.url, r1);
    lemma_parse_field_rt("installer_token"@, v.installer_token, r2);
    lemma_parse_field_rt("app_name"@, v.app_name, r3);
    lemma_parse_field_rt("app_version"@, v.app_version, r4);
    lemma_parse_field_rt("app_file_name"@, v.app_file_name, r5);
    lemma_parse_port_rt(v.app_run_port, r6);
    lemma_parse_field_rt("jdk_name"@, v.jdk_name, r7);
    lemma_parse_field_rt("jdk_version"@, v.jdk_version, r8);
    lemma_parse_field_rt("jdk_file_name"@, v.jdk_file_name, r9);
}

#[verifier::rlimit(50)]
proof fn lemma_parse_installers_rt(s: Seq<InstallerView>)
    ensures
        spec_parse_installers(installers_text(s)) == Some(s),
    decreases s.len(),
{
    if s.len() == 0 {
        assert(installers_text(s).len() == 0);
    } else {
        let t = installers_text(s);
        let tail_text = installers_text(s.drop_first());
        assert(t == installer_text(s.first()) + tail_text);
        assert(table_header_chars().len() == 16);
        assert(t.len() >= 16 + tail_text.len());
        lemma_parse_installer_rt(s.first(), tail_text);
        assert(forall|i: int|
            0 <= i < s.drop_first().len() ==> s.drop_first()[i] == s[i + 1]);
        lemma_parse_installers_rt(s.drop_first());
        assert(seq![s.first()] + s.drop_first() =~= s);
    }
}

/// The store's textual form reads back to the very store it was written
/// for: persisting and reloading loses and changes nothing, whatever
/// the fields hold and whatever the installers' order.
pub proof fn lemma_doc_round_trip(c: ConfigView)
    ensures
        spec_parse_doc(doc_of(c)) == Some(c),
{
    let body = installers_text(c.installers);
    lemma_parse_field_rt("server_token"@, c.server_token, body);
    lemma_parse_installers_rt(c.installers);
}

/// Two stores with the same textual form are the same store: the
/// document loses nothing.
pub proof fn lemma_doc_injective(a: ConfigView, b: ConfigView)
    requires
        doc_of(a) == doc_of(b),
    ensures
        a == b,
{
    lemma_doc_round_trip(a);
    lemma_doc_round_trip(b);
}

/// `installers_text` grows on the right, one table at a time.
proof fn lemma_installers_text_push(s: Seq<InstallerView>, v: InstallerView)
    ensures
        installers_text(s.push(v)) == installers_text(s) + installer_text(v),
    decreases s.len(),
{
    if s.len() == 0 {
        assert(s.push(v).first() == v);
        assert(s.push(v).drop_first() =~= Seq::<InstallerView>::empty());
        assert(installers_text(Seq::<InstallerView>::empty()) == Seq::<char>::empty());
        assert(installers_text(s.push(v)) =~= installers_text(s) + installer_text(v));
    } else {
        assert(s.push(v).first() == s.first());
        assert(s.push(v).drop_first() =~= s.drop_first().push(v));
        lemma_installers_text_push(s.drop_first(), v);
        lemma_assoc(installer_text(s.first()), installers_text(s.drop_first()), installer_text(v));
    }
}

/// The digit character for `d`.
fn digit_str(d: u32) -> (r: &'static str)
    requires
        d < 10,
    ensures
        r@ == seq![digit_char(d as nat)],
{
    proof {
        reveal_strlit("0");
        reveal_strlit("1");
        reveal_strlit("2");
        reveal_strlit("3");
        reveal_strlit("4");
        reveal_strlit("5");
        reveal_strlit("6");
        reveal_strlit("7");
        reveal_strlit("8");
        reveal_strlit("9");
        assert("0"@ =~= seq![digit_char(0)]);
        assert("1"@ =~= seq![digit_char(1)]);
        assert("2"@ =~= seq![digit_char(2)]);
        assert("3"@ =~= seq![digit_char(3)]);
        assert("4"@ =~= seq![digit_char(4)]);
        assert("5"@ =~= seq![digit_char(5)]);
        assert("6"@ =~= seq![digit_char(6)]);
        assert("7"@ =~= seq![digit_char(7)]);
        assert("8"@ =~= seq![digit_char(8)]);
        assert("9"@ =~= seq![digit_char(9)]);
    }
    match d {
        0 => "0",
        1 => "1",
        2 => "2",
        3 => "3",
        4 => "4",
        5 => "5",
        6 => "6",
        7 => "7",
        8 => "8",
        _ => "9",
    }
}

/// Appends the decimal rendering of `n`.
fn push_dec(out: &mut String, n: u32)
    ensures
        final(out)@ == old(out)@ + dec_digits(n as nat),
    decreases n,
{
    if n < 10 {
        let d = digit_str(n);
        out.append(d);
    } else {
        push_dec(out, n / 10);
        let d = digit_str(n % 10);
        out.append(d);
        proof {
            assert(dec_digits((n / 10) as nat) + seq![digit_char((n % 10) as nat)] =~= dec_digits(
                n as nat,
            ));
            assert(out@ =~= old(out)@ + dec_digits(n as nat));
        }
    }
}

/// `esc` grows on the right, one character at a time.
proof fn lemma_esc_push(v: Seq<char>, c: char)
    ensures
        esc(v.push(c)) == esc(v) + esc_char(c),
    decreases v.len(),
{
    if v.len() == 0 {
        assert(v.push(c)[0] == c);
        assert(v.push(c).drop_first() =~= Seq::<char>::empty());
        assert(esc(Seq::<char>::empty()) == Seq::<char>::empty());
        assert(esc(v.push(c)) =~= esc(v) + esc_char(c));
    } else {
        assert(v.push(c)[0] == v[0]);
        assert(v.push(c).drop_first() =~= v.drop_first().push(c));
        lemma_esc_push(v.drop_first(), c);
        lemma_assoc(esc_char(v[0]), esc(v.drop_first()), esc_char(c));
    }
}

/// The escaped characters of a value.
fn escape_chars(value: &str) -> (r: Vec<char>)
    ensures
        r@ == esc(value@),
{
    let chars = str_chars(value);
    let n = chars.len();
    let mut out: Vec<char> = Vec::new();
    let mut i: usize = 0;
    while i < n
        invariant
            n == chars@.len(),
            chars@ == value@,
            i <= n,
            out@ == esc(value@.take(i as int)),
        decreases n - i,
    {
        let c = chars[i];
        if c == '"' || c == '\\' {
            out.push('\\');
            out.push(c);
        } else {
            out.push(c);
        }
        proof {
            lemma_esc_push(value@.take(i as int), value@[i as int]);
            assert(value@.take(i + 1 as int) =~= value@.take(i as int).push(value@[i as int]));
            assert(out@ =~= esc(value@.take(i as int)) + esc_char(value@[i as int]));
        }
        i = i + 1;
    }
    proof {
        assert(value@.take(n as int) =~= value@);
    }
    out
}

/// Appends one `key = "value"` line, escaping the value.
fn emit_field(out: &mut String, key: &str, value: &str)
    ensures
        final(out)@ == old(out)@ + field_line(key@, value@),
{
    out.append(key);
    out.append(" = \"");
    let escaped = escape_chars(value);
    let escaped_text = chars_to_string(escaped.as_slice());
    out.append(escaped_text.as_str());
    out.append("\"\n");
    proof {
        reveal_strlit(" = \"");
        reveal_strlit("\"\n");
        assert(" = \""@ =~= eq_quote_chars());
        assert("\"\n"@ =~= quote_nl_chars());
        assert(out@ =~= old(out)@ + field_line(key@, value@));
    }
}

/// Appends the `app_run_port = <decimal>` line.
fn emit_port_line(out: &mut String, port: u32)
    ensures
        final(out)@ == old(out)@ + port_line(port),
{
    out.append("app_run_port");
    out.append(" = ");
    push_dec(out, port);
    out.append("\n");
    proof {
        reveal_strlit(" = ");
        reveal_strlit("\n");
        assert(" = "@ =~= eq_space_chars());
        assert("\n"@ =~= nl_chars());
        assert(out@ =~= old(out)@ + port_line(port));
    }
}

/// Appends the text of one installer table.
fn emit_installer(out: &mut String, installer: &InstallerConfig)
    ensures
        final(out)@ == old(out)@ + installer_text(installer@),
{
    out.append("\n[[installers]]\n");
    proof {
        reveal_strlit("\n[[installers]]\n");
        assert("\n[[installers]]\n"@ =~= table_header_chars());
    }
    emit_field(out, "url", installer.url.as_str());
    emit_field(out, "installer_token", installer.installer_token.as_str());
    emit_field(out, "app_name", installer.app_name.as_str());
    emit_field(out, "app_version", installer.app_version.as_str());
    emit_field(out, "app_file_name", installer.app_file_name.as_str());
    emit_port_line(out, installer.app_run_port);
    emit_field(out, "jdk_name", installer.jdk_name.as_str());
    emit_field(out, "jdk_version", installer.jdk_version.as_str());
    emit_field(out, "jdk_file_name", installer.jdk_file_name.as_str());
    proof {
        assert(out@ =~= old(out)@ + installer_text(installer@));
    }
}

/// Writes the whole document for a store view held in `config`.
pub fn emit_document(config: &Config) -> (r: String)
    ensures
        r@ == doc_of(config@),
{
    let mut out = String::new();
    emit_field(&mut out, "server_token", config.server_token.as_str());
    proof {
        assert(out@ =~= field_line("server_token"@, config@.server_token) + installers_text(
            config@.installers.take(0),
        ));
    }
    let n = config.installers.len();
    let mut i: usize = 0;
    while i < n
        invariant
            n == config.installers.len(),
            i <= n,
            out@ == field_line("server_token"@, config@.server_token) + installers_text(
                config@.installers.take(i as int),
            ),
        decreases n - i,
    {
        emit_installer(&mut out, &config.installers[i]);
        proof {
            let vs = config@.installers;
            lemma_installers_text_push(vs.take(i as int), vs[i as int]);
            assert(vs.take(i + 1 as int) =~= vs.take(i as int).push(vs[i as int]));
            lemma_assoc(
                field_line("server_token"@, config@.server_token),
                installers_text(vs.take(i as int)),
                installer_text(vs[i as int]),
            );
        }
        i = i + 1;
    }
    proof {
        assert(config@.installers.take(n as int) =~= config@.installers);
    }
    out
}

proof fn lemma_find_none(s: Seq<char>, c: char)
    requires
        forall|k: int| 0 <= k < s.len() ==> s[k] != c,
    ensures
        find_char(s, c) == -1,
    decreases s.len(),
{
    if s.len() > 0 {
        assert(forall|k: int| 0 <= k < s.drop_first().len() ==> s.drop_first()[k] == s[k + 1]);
        lemma_find_none(s.drop_first(), c);
    }
}

/// Relies on `String`'s `FromIterator` over `char`: collecting the
/// characters of a slice yields the string of exactly those characters.
#[verifier::external_body]
pub(crate) fn chars_to_string(s: &[char]) -> (r: String)
    ensures
        r@ == s@,
{
    s.iter().collect()
}

/// The characters `<key> = "` that open a quoted value line.
fn key_value_pattern(key: &str) -> (v: Vec<char>)
    ensures
        v@ == key@ + eq_quote_chars(),
{
    let mut v = str_chars(key);
    v.push(' ');
    v.push('=');
    v.push(' ');
    v.push('"');
    proof {
        assert(v@ =~= key@ + eq_quote_chars());
    }
    v
}

/// The characters `app_run_port = ` that open the port line.
fn port_pattern() -> (v: Vec<char>)
    ensures
        v@ == "app_run_port"@ + eq_space_chars(),
{
    let mut v = str_chars("app_run_port");
    v.push(' ');
    v.push('=');
    v.push(' ');
    proof {
        assert(v@ =~= "app_run_port"@ + eq_space_chars());
    }
    v
}

/// The characters of the installer table header line.
fn header_pattern() -> (v: Vec<char>)
    ensures
        v@ == table_header_chars(),
{
    let v = str_chars("\n[[installers]]\n");
    proof {
        reveal_strlit("\n[[installers]]\n");
        assert(v@ =~= table_header_chars());
    }
    v
}

/// `s` begins with the characters of `pat`.
fn slice_starts_with(s: &[char], pat: &Vec<char>) -> (b: bool)
    ensures
        b == spec_starts_with(s@, pat@),
{
    let m = pat.len();
    if s.len() < m {
        return false;
    }
    let mut i: usize = 0;
    while i < m
        invariant
            i <= m,
            m == pat@.len(),
            m <= s@.len(),
            forall|k: int| 0 <= k < i ==> s@[k] == pat@[k],
        decreases m - i,
    {
        if *slice_index_get(s, i) != pat[i] {
            proof {
                assert(s@.subrange(0, m as int)[i as int] == s@[i as int]);
            }
            return false;
        }
        i = i + 1;
    }
    proof {
        assert(s@.subrange(0, m as int) =~= pat@);
    }
    true
}

/// The index of the first `c` in `s`, if any.
pub fn find_pos(s: &[char], c: char) -> (r: Option<usize>)
    ensures
        match r {
            Some(j) => j < s@.len() && s@[j as int] == c && find_char(s@, c) == j,
            None => find_char(s@, c) == -1,
        },
{
    let n = s.len();
    let mut i: usize = 0;
    while i < n
        invariant
            i <= n,
            n == s@.len(),
            forall|k: int| 0 <= k < i ==> s@[k] != c,
        decreases n - i,
    {
        if *slice_index_get(s, i) == c {
            proof {
                lemma_find_found(s@, c, i as int);
            }
            return Some(i);
        }
        i = i + 1;
    }
    proof {
        lemma_find_none(s@, c);
    }
    None
}

/// Reads one `key = "value"` line off the front of `s`, undoing the
/// escapes in the value.
#[verifier::loop_isolation(false)]
fn parse_field<'a>(s: &'a [char], key: &str) -> (r: Option<(String, &'a [char])>)
    ensures
        r is Some <==> spec_parse_field(s@, key@) is Some,
        r is Some ==> (r.unwrap().0@, r.unwrap().1@) == spec_parse_field(s@, key@).unwrap(),
{
    let pat = key_value_pattern(key);
    if !slice_starts_with(s, &pat) {
        return None;
    }
    let rest = slice_subrange(s, pat.len(), s.len());
    proof {
        assert(rest@ =~= s@.skip((key@ + eq_quote_chars()).len() as int));
        assert(rest@.skip(0) =~= rest@);
        if parse_qvalue(rest@) is Some {
            assert(Seq::<char>::empty() + parse_qvalue(rest@).unwrap().0 =~= parse_qvalue(
                rest@,
            ).unwrap().0);
        }
    }
    let n = rest.len();
    let mut val: Vec<char> = Vec::new();
    let mut j: usize = 0;
    while j < n
        invariant
            j <= n,
            n == rest@.len(),
            parse_qvalue(rest@) == qvalue_glue(val@, parse_qvalue(rest@.skip(j as int))),
        decreases n - j,
    {
        let c = *slice_index_get(rest, j);
        proof {
            assert(rest@.skip(j as int)[0] == rest@[j as int]);
        }
        if c == '"' {
            proof {
                assert(rest@.skip(j as int).skip(1) =~= rest@.skip(j + 1 as int));
                assert(val@ + Seq::<char>::empty() =~= val@);
                assert(parse_qvalue(rest@) == Some((val@, rest@.skip(j + 1 as int))));
            }
            if j + 1 >= n {
                proof {
                    assert(rest@.skip(j + 1 as int).len() == 0);
                }
                return None;
            }
            proof {
                assert(rest@.skip(j + 1 as int)[0] == rest@[j + 1 as int]);
            }
            if *slice_index_get(rest, j + 1) != '\n' {
                return None;
            }
            let value = chars_to_string(val.as_slice());
            let remaining = slice_subrange(rest, j + 2, n);
            proof {
                assert(remaining@ =~= rest@.skip(j + 1 as int).skip(1));
            }
            return Some((value, remaining));
        } else if c == '\\' {
            if j + 1 >= n {
                proof {
                    assert(rest@.skip(j as int).len() < 2);
                }
                return None;
            }
            let c2 = *slice_index_get(rest, j + 1);
            proof {
                assert(rest@.skip(j as int)[1] == rest@[j + 1 as int]);
            }
            if c2 != '"' && c2 != '\\' {
                return None;
            }
            let ghost vs = val@;
            val.push(c2);
            proof {
                assert(rest@.skip(j as int).skip(2) =~= rest@.skip(j + 2 as int));
                assert(val@ =~= vs + seq![c2]);
                if parse_qvalue(rest@.skip(j + 2 as int)) is Some {
                    lemma_assoc(vs, seq![c2], parse_qvalue(rest@.skip(j + 2 as int)).unwrap().0);
                }
                assert(parse_qvalue(rest@) == qvalue_glue(
                    val@,
                    parse_qvalue(rest@.skip(j + 2 as int)),
                ));
            }
            j = j + 2;
        } else {
            let ghost vs = val@;
            val.push(c);
            proof {
                assert(rest@.skip(j as int).skip(1) =~= rest@.skip(j + 1 as int));
                assert(val@ =~= vs + seq![c]);
                if parse_qvalue(rest@.skip(j + 1 as int)) is Some {
                    lemma_assoc(vs, seq![c], parse_qvalue(rest@.skip(j + 1 as int)).unwrap().0);
                }
                assert(parse_qvalue(rest@) == qvalue_glue(
                    val@,
                    parse_qvalue(rest@.skip(j + 1 as int)),
                ));
            }
            j = j + 1;
        }
    }
    proof {
        assert(rest@.skip(j as int).len() == 0);
        assert(parse_qvalue(rest@.skip(j as int)) is None);
    }
    None
}

/// `c` is a decimal digit.
fn is_digit_char(c: char) -> (b: bool)
    ensures
        b == is_digit(c),
{
    c == '0' || c == '1' || c == '2' || c == '3' || c == '4' || c == '5' || c == '6' || c == '7'
        || c == '8' || c == '9'
}

/// The numeric value of a digit character.
fn char_digit_val(c: char) -> (d: u32)
    requires
        is_digit(c),
    ensures
        d as nat == digit_val(c),
        d < 10,
{
    match c {
        '0' => 0,
        '1' => 1,
        '2' => 2,
        '3' => 3,
        '4' => 4,
        '5' => 5,
        '6' => 6,
        '7' => 7,
        '8' => 8,
        _ => 9,
    }
}

/// Reads the `app_run_port = <decimal>` line off the front of `s`.
fn parse_port<'a>(s: &'a [char]) -> (r: Option<(u32, &'a [char])>)
    ensures
        r is Some <==> spec_parse_port(s@) is Some,
        r is Some ==> (r.unwrap().0, r.unwrap().1@) == spec_parse_port(s@).unwrap(),
{
    let pat = port_pattern();
    if !slice_starts_with(s, &pat) {
        return None;
    }
    let rest = slice_subrange(s, pat.len(), s.len());
    proof {
        assert(rest@ =~= s@.skip(("app_run_port"@ + eq_space_chars()).len() as int));
    }
    let n = rest.len();
    let mut k: usize = 0;
    while k < n
        invariant_except_break
            k <= n,
            n == rest@.len(),
            forall|t: int| 0 <= t < k ==> is_digit(#[trigger] rest@[t]),
        ensures
            k <= n,
            n == rest@.len(),
            forall|t: int| 0 <= t < k ==> is_digit(#[trigger] rest@[t]),
            k == n || !is_digit(rest@[k as int]),
        decreases n - k,
    {
        if !is_digit_char(*slice_index_get(rest, k)) {
            break ;
        }
        k = k + 1;
    }
    proof {
        lemma_digits_prefix(rest@, k as int);
    }
    if k == 0 || k >= n {
        return None;
    }
    if *slice_index_get(rest, k) != '\n' {
        return None;
    }
    let mut acc: u64 = 0;
    let mut over = false;
    let mut j: usize = 0;
    while j < k
        invariant
            j <= k <= n,
            n == rest@.len(),
            forall|t: int| 0 <= t < k ==> is_digit(#[trigger] rest@[t]),
            over == (dec_val(rest@.take(j as int)) > u32::MAX),
            !over ==> acc as nat == dec_val(rest@.take(j as int)),
        decreases k - j,
    {
        let c = *slice_index_get(rest, j);
        let d = char_digit_val(c);
        proof {
            assert(rest@.take(j + 1 as int).drop_last() =~= rest@.take(j as int));
            assert(rest@.take(j + 1 as int).last() == rest@[j as int]);
            assert(dec_val(rest@.take(j + 1 as int)) == dec_val(rest@.take(j as int)) * 10
                + digit_val(rest@[j as int]));
        }
        if !over {
            let a2: u64 = acc * 10 + d as u64;
            if a2 > 0xFFFF_FFFFu64 {
                over = true;
            } else {
                acc = a2;
            }
        }
        j = j + 1;
    }
    if over {
        return None;
    }
    let remaining = slice_subrange(rest, k + 1, n);
    proof {
        assert(remaining@ =~= rest@.skip(k + 1 as int));
        assert(dec_val(digits_prefix(rest@)) <= u32::MAX);
    }
    Some((acc as u32, remaining))
}

/// Reads one installer table off the front of `s`.
fn parse_installer<'a>(s: &'a [char]) -> (r: Option<(InstallerConfig, &'a [char])>)
    ensures
        r is Some <==> spec_parse_installer(s@) is Some,
        r is Some ==> (r.unwrap().0@, r.unwrap().1@) == spec_parse_installer(s@).unwrap(),
{
    proof {
        reveal(spec_parse_installer);
    }
    let header = header_pattern();
    if !slice_starts_with(s, &header) {
        return None;
    }
    let s0 = slice_subrange(s, header.len(), s.len());
    proof {
        assert(s0@ =~= s@.skip(table_header_chars().len() as int));
    }
    let (url, s1) = match parse_field(s0, "url") {
        None => {
            return None;
        },
        Some(p) => p,
    };
    let (installer_token, s2) = match parse_field(s1, "installer_token") {
        None => {
            return None;
        },
        Some(p) => p,
    };
    let (app_name, s3) = match parse_field(s2, "app_name") {
        None => {
            return None;
        },
        Some(p) => p,
    };
    let (app_version, s4) = match parse_field(s3, "app_version") {
        None => {
            return None;
        },
        Some(p) => p,
    };
    let (app_file_name, s5) = match parse_field(s4, "app_file_name") {
        None => {
            return None;
        },
        Some(p) => p,
    };
    let (app_run_port, s6) = match parse_port(s5) {
        None => {
            return None;
        },
        Some(p) => p,
    };
    let (jdk_name, s7) = match parse_field(s6, "jdk_name") {
        None => {
            return None;
        },
        Some(p) => p,
    };
    let (jdk_version, s8) = match parse_field(s7, "jdk_version") {
        None => {
            return None;
        },
        Some(p) => p,
    };
    let (jdk_file_name, s9) = match parse_field(s8, "jdk_file_name") {
        None => {
            return None;
        },
        Some(p) => p,
    };
    Some(
        (
            InstallerConfig {
                url,
                installer_token,
                app_name,
                app_version,
                app_file_name,
                app_run_port,
                jdk_name,
                jdk_version,
                jdk_file_name,
            },
            s9,
        ),
    )
}

/// Reads installer tables until `s` is exhausted.
fn parse_installers(s: &[char]) -> (r: Option<Vec<InstallerConfig>>)
    ensures
        r is Some <==> spec_parse_installers(s@) is Some,
        r is Some ==> installer_views(r.unwrap()@) == spec_parse_installers(s@).unwrap(),
    decreases s@.len(),
{
    if s.len() == 0 {
        let v: Vec<InstallerConfig> = Vec::new();
        proof {
            assert(installer_views(v@) =~= Seq::<InstallerView>::empty());
        }
        return Some(v);
    }
    match parse_installer(s) {
        None => None,
        Some((record, rest)) => {
            if rest.len() < s.len() {
                match parse_installers(rest) {
                    None => None,
                    Some(mut v) => {
                        let ghost before = v@;
                        v.insert(0, record);
                        proof {
                            assert(installer_views(v@) =~= seq![record@] + installer_views(
                                before,
                            ));
                        }
                        Some(v)
                    },
                }
            } else {
                None
            }
        },
    }
}

/// Reads a whole document back into a store.
pub fn parse_document(text: &str) -> (r: Option<Config>)
    ensures
        r is Some <==> spec_parse_doc(text@) is Some,
        r is Some ==> spec_parse_doc(text@) == Some(r.unwrap()@),
{
    let chars = str_chars(text);
    let s = chars.as_slice();
    match parse_field(s, "server_token") {
        None => None,
        Some((server_token, rest)) => match parse_installers(rest) {
            None => None,
            Some(installers) => Some(Config { server_token, installers }),
        },
    }
}

/// Character-for-character equality of two string slices.
pub fn str_eq(a: &str, b: &str) -> (r: bool)
    ensures
        r == (a@ == b@),
{
    let a_len = a.unicode_len();
    let b_len = b.unicode_len();
    if a_len != b_len {
        return false;
    }
    let mut i: usize = 0;
    while i < a_len
        invariant
            i <= a_len,
            a_len == a@.len(),
            b_len == b@.len(),
            a_len == b_len,
            forall|k: int| 0 <= k < i ==> a@[k] == b@[k],
        decreases a_len - i,
    {
        if a.get_char(i) != b.get_char(i) {
            return false;
        }
        i = i + 1;
    }
    proof {
        assert(a@ =~= b@);
    }
    true
}

/// The characters of a string slice, as a vector.
pub fn str_chars(s: &str) -> (r: Vec<char>)
    ensures
        r@ == s@,
{
    let n = s.unicode_len();
    let mut v: Vec<char> = Vec::new();
    let mut i: usize = 0;
    while i < n
        invariant
            i <= n,
            n == s@.len(),
            v@ == s@.subrange(0, i as int),
        decreases n - i,
    {
        v.push(s.get_char(i));
        proof {
            assert(v@ =~= s@.subrange(0, i + 1 as int));
        }
        i = i + 1;
    }
    proof {
        assert(s@.subrange(0, n as int) =~= s@);
    }
    v
}

} // verus!
