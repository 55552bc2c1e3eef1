//! The record codec: a deterministic, line-oriented text representation of
//! the configuration records.
//!
//! A record is a sequence of lines, each `key=value` terminated by `\n`. Keys
//! written by this library are single letters; a reader ignores lines whose
//! key it does not know and fills fields that never occur with the record
//! type's defaults, so records survive application versions that add fields.
//! A scalar key that occurs twice keeps the later value; a list key appends.
//! Values are escaped ([`crate::text::escape`]) so they may contain any
//! character.
//!
//! Global records use keys `c` (colorscheme), `t` (editor theme), `s` (font
//! size), `w` (word wrap), `i` (show invisibles), `m` (transparent mode) and
//! `o` (opacity percentage). Instance records use `r` (one recent file per
//! line, most recent first) and `p` (one opened file per line, insertion
//! order). The legacy merged record uses all nine.

use crate::records::{
    AppConfig, AppConfigV, ConfigError, GlobalConfig, GlobalConfigV, InstanceConfig,
    InstanceConfigV, RECENT_FILES_CAP, contains_string, default_app, default_global,
    default_instance, distinct_entries,
};
use crate::text::{
    bool_chars, chars_to_string, digit_of, escape, find_char_from, first_idx,
    lemma_bool_round_trip, lemma_digits_are_digits, lemma_digits_parse, lemma_escape_no_newline,
    lemma_first_idx_found, lemma_first_idx_is, lemma_first_idx_none, lemma_first_idx_none_inv,
    lemma_unescape_escape, parse_bool, parse_bool_chars, parse_u32, parse_u32_chars, push_bool,
    push_digits, push_escaped, str_to_chars, subvec, u32_digits, unescape, unescape_chars,
};
use vstd::prelude::*;

verus! {

// ---------------------------------------------------------------------------
// The line layer
// ---------------------------------------------------------------------------

/// One line as this library writes it: a single-letter key, `=`, the payload,
/// and the terminator.
pub open spec fn line1(k: char, payload: Seq<char>) -> Seq<char> {
    seq![k, '='] + payload + seq!['\n']
}

/// Split a text into `(key, payload)` pairs, one per `\n`-terminated line,
/// the key running up to the first `=`. `None` when a line is unterminated
/// or has no `=`.
pub open spec fn parse_lines(s: Seq<char>) -> Option<Seq<(Seq<char>, Seq<char>)>>
    decreases s.len(),
    via parse_lines_decreases
{
    if s.len() == 0 {
        Some(Seq::empty())
    } else {
        match first_idx(s, '\n') {
            None => None,
            Some(i) => {
                let ln = s.take(i);
                match first_idx(ln, '=') {
                    None => None,
                    Some(j) => match parse_lines(s.skip(i + 1)) {
                        None => None,
                        Some(rest) => Some(seq![(ln.take(j), ln.skip(j + 1))] + rest),
                    },
                }
            },
        }
    }
}

#[via_fn]
proof fn parse_lines_decreases(s: Seq<char>) {
    if s.len() > 0 && first_idx(s, '\n') is Some {
        lemma_first_idx_found(s, '\n');
    }
}

/// Peeling one well-formed line off the front of a text prepends its pair to
/// the pairs of the remainder.
pub proof fn lemma_parse_line1(k: char, p: Seq<char>, rest: Seq<char>)
    requires
        k != '\n',
        k != '=',
        forall|i: int| 0 <= i < p.len() ==> p[i] != '\n',
    ensures
        parse_lines(line1(k, p) + rest) == match parse_lines(rest) {
            None => None::<Seq<(Seq<char>, Seq<char>)>>,
            Some(r) => Some(seq![(seq![k], p)] + r),
        },
{
    let s = line1(k, p) + rest;
    let n = p.len() as int;
    // The first line terminator stands right after the payload.
    assert(s[0] == k && s[1] == '=' && s[2 + n] == '\n');
    assert(forall|x: int| 0 <= x < n ==> s[2 + x] == p[x]);
    assert(forall|x: int| 0 <= x < 2 + n ==> s[x] != '\n');
    lemma_first_idx_is(s, '\n', 2 + n);
    let ln = s.take(2 + n);
    // The first key separator stands right after the key.
    assert(ln[1] == '=');
    assert(ln[0] != '=');
    lemma_first_idx_is(ln, '=', 1);
    assert(ln.take(1) =~= seq![k]);
    assert(ln.skip(2) =~= p);
    assert(s.skip(2 + n + 1) =~= rest);
}

/// The lines this library writes for a list field: one line per entry, in
/// order, each holding the escaped entry.
pub open spec fn list_lines(k: char, l: Seq<Seq<char>>) -> Seq<char>
    decreases l.len(),
{
    if l.len() == 0 {
        Seq::empty()
    } else {
        line1(k, escape(l[0])) + list_lines(k, l.drop_first())
    }
}

pub proof fn lemma_list_lines_snoc(k: char, l: Seq<Seq<char>>, x: Seq<char>)
    ensures
        list_lines(k, l.push(x)) == list_lines(k, l) + line1(k, escape(x)),
    decreases l.len(),
{
    if l.len() == 0 {
        assert(l.push(x).drop_first() =~= Seq::<Seq<char>>::empty());
        assert(l.push(x)[0] == x);
        assert(list_lines(k, l.push(x).drop_first()) == Seq::<char>::empty());
        assert(list_lines(k, l.push(x)) == line1(k, escape(x)) + Seq::<char>::empty());
        assert(list_lines(k, l) == Seq::<char>::empty());
        assert(list_lines(k, l.push(x)) =~= list_lines(k, l) + line1(k, escape(x)));
    } else {
        assert(l.push(x).drop_first() =~= l.drop_first().push(x));
        assert(l.push(x)[0] == l[0]);
        lemma_list_lines_snoc(k, l.drop_first(), x);
        assert(list_lines(k, l.push(x)) =~= list_lines(k, l) + line1(k, escape(x)));
    }
}

// ---------------------------------------------------------------------------
// Reading one line (executable)
// ---------------------------------------------------------------------------

/// Like [`first_idx`], restricted to a prefix of the text.
proof fn lemma_first_idx_take(s: Seq<char>, c: char, m: int)
    requires
        0 <= m <= s.len(),
    ensures
        first_idx(s.take(m), c) == match first_idx(s, c) {
            Some(j) => if j < m {
                Some(j)
            } else {
                None::<int>
            },
            None => None::<int>,
        },
{
    match first_idx(s, c) {
        Some(j) => {
            lemma_first_idx_found(s, c);
            if j < m {
                lemma_first_idx_is(s.take(m), c, j);
            } else {
                lemma_first_idx_none(s.take(m), c);
            }
        },
        None => {
            lemma_first_idx_none_inv(s, c);
            lemma_first_idx_none(s.take(m), c);
        },
    }
}

/// The single-letter keys, as singleton sequences: their length and sole
/// element, from which any two with different letters are told apart.
proof fn lemma_key_facts()
    ensures
        seq!['c'].len() == 1 && seq!['c'][0] == 'c',
        seq!['t'].len() == 1 && seq!['t'][0] == 't',
        seq!['s'].len() == 1 && seq!['s'][0] == 's',
        seq!['w'].len() == 1 && seq!['w'][0] == 'w',
        seq!['i'].len() == 1 && seq!['i'][0] == 'i',
        seq!['m'].len() == 1 && seq!['m'][0] == 'm',
        seq!['o'].len() == 1 && seq!['o'][0] == 'o',
        seq!['r'].len() == 1 && seq!['r'][0] == 'r',
        seq!['p'].len() == 1 && seq!['p'][0] == 'p',
{
}

/// Read the line starting at `pos`: its key, its payload, and the position
/// just past its terminator. `None` when the remainder of the text is not a
/// well-formed line.
fn next_line(v: &Vec<char>, pos: usize) -> (r: Option<(Vec<char>, Vec<char>, usize)>)
    requires
        pos < v@.len(),
    ensures
        match r {
            Some(kpn) => {
                &&& pos < kpn.2 <= v@.len()
                &&& parse_lines(v@.skip(pos as int)) == match parse_lines(v@.skip(kpn.2 as int)) {
                    None => None::<Seq<(Seq<char>, Seq<char>)>>,
                    Some(rest) => Some(seq![(kpn.0@, kpn.1@)] + rest),
                }
            },
            None => parse_lines(v@.skip(pos as int)) is None,
        },
{
    let ghost suf = v@.skip(pos as int);
    let nl = match find_char_from(v, pos, '\n') {
        Some(i) => i,
        None => {
            return None;
        },
    };
    proof {
        lemma_first_idx_found(suf, '\n');
        assert(suf[nl - pos] == suf.skip(0)[nl - pos]);
        assert(suf[nl - pos] == '\n');
    }
    let ghost ln = suf.take(nl - pos);
    let eq = match find_char_from(v, pos, '=') {
        Some(j) => {
            proof {
                lemma_first_idx_found(suf, '=');
                assert(suf[j - pos] == '=');
                lemma_first_idx_take(suf, '=', nl - pos);
            }
            // `=` and `\n` are distinct characters, so the separator cannot
            // stand on the terminator; past it, the line has no separator.
            if j >= nl {
                return None;
            }
            j
        },
        None => {
            proof {
                lemma_first_idx_take(suf, '=', nl - pos);
            }
            return None;
        },
    };
    let key = subvec(v, pos, eq);
    let payload = subvec(v, eq + 1, nl);
    proof {
        assert(first_idx(ln, '=') == Some(eq - pos));
        assert(key@ =~= ln.take(eq - pos));
        assert(payload@ =~= ln.skip(eq - pos + 1));
        assert(v@.skip(pos as int).skip(nl - pos + 1) =~= v@.skip(nl + 1));
    }
    assert(nl < v.len());
    Some((key, payload, nl + 1))
}

// ---------------------------------------------------------------------------
// Global records
// ---------------------------------------------------------------------------

/// Effect of one `(key, payload)` pair on a global record being read:
/// a known key sets its field (rejecting an out-of-range value), an unknown
/// key changes nothing.
pub open spec fn apply_global(g: GlobalConfigV, key: Seq<char>, p: Seq<char>) -> Option<
    GlobalConfigV,
> {
    if key == seq!['c'] {
        match unescape(p) {
            Some(x) => Some(GlobalConfigV { colorscheme: x, ..g }),
            None => None,
        }
    } else if key == seq!['t'] {
        match unescape(p) {
            Some(x) => Some(GlobalConfigV { monaco_editor_theme: x, ..g }),
            None => None,
        }
    } else if key == seq!['s'] {
        match parse_u32(p) {
            Some(n) => if n >= 1 {
                Some(GlobalConfigV { font_size: n, ..g })
            } else {
                None
            },
            None => None,
        }
    } else if key == seq!['w'] {
        match parse_bool(p) {
            Some(b) => Some(GlobalConfigV { word_wrap: b, ..g }),
            None => None,
        }
    } else if key == seq!['i'] {
        match parse_bool(p) {
            Some(b) => Some(GlobalConfigV { show_invisibles: b, ..g }),
            None => None,
        }
    } else if key == seq!['m'] {
        match parse_bool(p) {
            Some(b) => Some(GlobalConfigV { transparent_mode: b, ..g }),
            None => None,
        }
    } else if key == seq!['o'] {
        match parse_u32(p) {
            Some(n) => if n <= 100 {
                Some(GlobalConfigV { window_opacity_pct: n, ..g })
            } else {
                None
            },
            None => None,
        }
    } else {
        Some(g)
    }
}

pub open spec fn fold_global(g: GlobalConfigV, pairs: Seq<(Seq<char>, Seq<char>)>) -> Option<
    GlobalConfigV,
>
    decreases pairs.len(),
{
    if pairs.len() == 0 {
        Some(g)
    } else {
        match apply_global(g, pairs[0].0, pairs[0].1) {
            None => None,
            Some(g2) => fold_global(g2, pairs.drop_first()),
        }
    }
}

/// What [`decode_global`] reads out of a text.
pub open spec fn spec_decode_global(s: Seq<char>) -> Option<GlobalConfigV> {
    match parse_lines(s) {
        None => None,
        Some(pairs) => fold_global(default_global(), pairs),
    }
}

/// What [`encode_global`] writes: every field, each on its own line, in a
/// fixed order.
pub open spec fn spec_encode_global(g: GlobalConfigV) -> Seq<char> {
    line1('c', escape(g.colorscheme)) + line1('t', escape(g.monaco_editor_theme)) + line1(
        's',
        u32_digits(g.font_size as nat),
    ) + line1('w', bool_chars(g.word_wrap)) + line1('i', bool_chars(g.show_invisibles)) + line1(
        'm',
        bool_chars(g.transparent_mode),
    ) + line1('o', u32_digits(g.window_opacity_pct as nat))
}

/// No character of a decimal payload is a line terminator.
proof fn lemma_digits_no_newline(n: nat)
    ensures
        forall|i: int| 0 <= i < u32_digits(n).len() ==> u32_digits(n)[i] != '\n',
{
    lemma_digits_are_digits(n);
    assert(digit_of('\n') is None);
}

/// No character of a boolean payload is a line terminator.
proof fn lemma_bool_no_newline(b: bool)
    ensures
        forall|i: int| 0 <= i < bool_chars(b).len() ==> bool_chars(b)[i] != '\n',
{
}

/// Reading an encoded global record, starting from any record, ends with
/// exactly the encoded one: every field is overwritten.
#[verifier::rlimit(50)]
pub proof fn lemma_fold_global_encode(g0: GlobalConfigV, g: GlobalConfigV, rest: Seq<char>)
    requires
        g.wf(),
    ensures
        parse_lines(spec_encode_global(g) + rest) == match parse_lines(rest) {
            None => None::<Seq<(Seq<char>, Seq<char>)>>,
            Some(r) => Some(spec_global_pairs(g) + r),
        },
        forall|more: Seq<(Seq<char>, Seq<char>)>|
            #[trigger] fold_global(g0, spec_global_pairs(g) + more) == fold_global(g, more),
{
    let lc = line1('c', escape(g.colorscheme));
    let lt = line1('t', escape(g.monaco_editor_theme));
    let ls = line1('s', u32_digits(g.font_size as nat));
    let lw = line1('w', bool_chars(g.word_wrap));
    let li = line1('i', bool_chars(g.show_invisibles));
    let lm = line1('m', bool_chars(g.transparent_mode));
    let lo = line1('o', u32_digits(g.window_opacity_pct as nat));
    lemma_escape_no_newline(g.colorscheme);
    lemma_escape_no_newline(g.monaco_editor_theme);
    lemma_digits_no_newline(g.font_size as nat);
    lemma_digits_no_newline(g.window_opacity_pct as nat);
    lemma_bool_no_newline(g.word_wrap);
    lemma_bool_no_newline(g.show_invisibles);
    lemma_bool_no_newline(g.transparent_mode);
    // Regroup the concatenation right-nested so lines peel off the front.
    let t7 = lo + rest;
    let t6 = lm + t7;
    let t5 = li + t6;
    let t4 = lw + t5;
    let t3 = ls + t4;
    let t2 = lt + t3;
    assert(spec_encode_global(g) =~= lc + lt + ls + lw + li + lm + lo);
    assert(lc + lt + ls + lw + li + lm + lo + rest =~= lc + t2);
    assert(spec_encode_global(g) + rest == lc + t2);
    lemma_parse_line1('o', u32_digits(g.window_opacity_pct as nat), rest);
    lemma_parse_line1('m', bool_chars(g.transparent_mode), t7);
    lemma_parse_line1('i', bool_chars(g.show_invisibles), t6);
    lemma_parse_line1('w', bool_chars(g.word_wrap), t5);
    lemma_parse_line1('s', u32_digits(g.font_size as nat), t4);
    lemma_parse_line1('t', escape(g.monaco_editor_theme), t3);
    lemma_parse_line1('c', escape(g.colorscheme), t2);
    if parse_lines(rest) is Some {
        let r = parse_lines(rest)->Some_0;
        let pc = (seq!['c'], escape(g.colorscheme));
        let pt = (seq!['t'], escape(g.monaco_editor_theme));
        let ps = (seq!['s'], u32_digits(g.font_size as nat));
        let pw = (seq!['w'], bool_chars(g.word_wrap));
        let pi = (seq!['i'], bool_chars(g.show_invisibles));
        let pm = (seq!['m'], bool_chars(g.transparent_mode));
        let po = (seq!['o'], u32_digits(g.window_opacity_pct as nat));
        assert(seq![pc] + (seq![pt] + (seq![ps] + (seq![pw] + (seq![pi] + (seq![pm] + (seq![po]
            + r)))))) =~= spec_global_pairs(g) + r);
    }
    assert forall|more: Seq<(Seq<char>, Seq<char>)>|
        #[trigger] fold_global(g0, spec_global_pairs(g) + more) == fold_global(g, more) by {
        lemma_fold_global_pairs(g0, g, more);
    }
}

/// The pairs an encoded global record parses into.
pub open spec fn spec_global_pairs(g: GlobalConfigV) -> Seq<(Seq<char>, Seq<char>)> {
    seq![
        (seq!['c'], escape(g.colorscheme)),
        (seq!['t'], escape(g.monaco_editor_theme)),
        (seq!['s'], u32_digits(g.font_size as nat)),
        (seq!['w'], bool_chars(g.word_wrap)),
        (seq!['i'], bool_chars(g.show_invisibles)),
        (seq!['m'], bool_chars(g.transparent_mode)),
        (seq!['o'], u32_digits(g.window_opacity_pct as nat)),
    ]
}

#[verifier::rlimit(50)]
proof fn lemma_fold_global_pairs(
    g0: GlobalConfigV,
    g: GlobalConfigV,
    more: Seq<(Seq<char>, Seq<char>)>,
)
    requires
        g.wf(),
    ensures
        fold_global(g0, spec_global_pairs(g) + more) == fold_global(g, more),
{
    lemma_key_facts();
    lemma_unescape_escape(g.colorscheme);
    lemma_unescape_escape(g.monaco_editor_theme);
    lemma_digits_parse(g.font_size as nat);
    lemma_digits_parse(g.window_opacity_pct as nat);
    lemma_bool_round_trip(g.word_wrap);
    lemma_bool_round_trip(g.show_invisibles);
    lemma_bool_round_trip(g.transparent_mode);
    let ps = spec_global_pairs(g) + more;
    let g1 = GlobalConfigV { colorscheme: g.colorscheme, ..g0 };
    let g2 = GlobalConfigV { monaco_editor_theme: g.monaco_editor_theme, ..g1 };
    let g3 = GlobalConfigV { font_size: g.font_size, ..g2 };
    let g4 = GlobalConfigV { word_wrap: g.word_wrap, ..g3 };
    let g5 = GlobalConfigV { show_invisibles: g.show_invisibles, ..g4 };
    let g6 = GlobalConfigV { transparent_mode: g.transparent_mode, ..g5 };
    let g7 = GlobalConfigV { window_opacity_pct: g.window_opacity_pct, ..g6 };
    assert(ps.drop_first() =~= spec_global_pairs(g).drop_first() + more);
    assert(fold_global(g0, ps) == fold_global(g1, ps.drop_first()));
    let ps1 = ps.drop_first();
    assert(ps1.drop_first() =~= spec_global_pairs(g).drop_first().drop_first() + more);
    assert(fold_global(g1, ps1) == fold_global(g2, ps1.drop_first()));
    let ps2 = ps1.drop_first();
    assert(ps2.drop_first() =~= spec_global_pairs(g).skip(3) + more);
    assert(fold_global(g2, ps2) == fold_global(g3, ps2.drop_first()));
    let ps3 = ps2.drop_first();
    assert(ps3.drop_first() =~= spec_global_pairs(g).skip(4) + more);
    assert(fold_global(g3, ps3) == fold_global(g4, ps3.drop_first()));
    let ps4 = ps3.drop_first();
    assert(ps4.drop_first() =~= spec_global_pairs(g).skip(5) + more);
    assert(fold_global(g4, ps4) == fold_global(g5, ps4.drop_first()));
    let ps5 = ps4.drop_first();
    assert(ps5.drop_first() =~= spec_global_pairs(g).skip(6) + more);
    assert(fold_global(g5, ps5) == fold_global(g6, ps5.drop_first()));
    let ps6 = ps5.drop_first();
    assert(ps6.drop_first() =~= more);
    assert(fold_global(g6, ps6) == fold_global(g7, ps6.drop_first()));
    assert(g7 =~= g);
}

/// Decoding inverts encoding: no information is lost by a round trip through
/// the text form, for any valid global record.
pub proof fn lemma_global_round_trip(g: GlobalConfigV)
    requires
        g.wf(),
    ensures
        spec_decode_global(spec_encode_global(g)) == Some(g),
{
    lemma_fold_global_encode(default_global(), g, Seq::empty());
    assert(spec_encode_global(g) + Seq::<char>::empty() =~= spec_encode_global(g));
    assert(parse_lines(Seq::<char>::empty()) == Some(Seq::<(Seq<char>, Seq<char>)>::empty()));
    assert(spec_global_pairs(g) + Seq::<(Seq<char>, Seq<char>)>::empty() =~= spec_global_pairs(g));
    assert(fold_global(default_global(), spec_global_pairs(g) + Seq::<(
        Seq<char>,
        Seq<char>,
    )>::empty()) == fold_global(g, Seq::empty()));
}

/// Append one line holding an escaped string value.
fn push_line_escaped(out: &mut Vec<char>, k: char, s: &String)
    ensures
        final(out)@ == old(out)@ + line1(k, escape(s@)),
{
    out.push(k);
    out.push('=');
    push_escaped(out, s.as_str());
    out.push('\n');
    proof {
        assert(out@ =~= old(out)@ + line1(k, escape(s@)));
    }
}

/// Append one line holding a decimal value.
fn push_line_digits(out: &mut Vec<char>, k: char, n: u32)
    ensures
        final(out)@ == old(out)@ + line1(k, u32_digits(n as nat)),
{
    out.push(k);
    out.push('=');
    push_digits(out, n);
    out.push('\n');
    proof {
        assert(out@ =~= old(out)@ + line1(k, u32_digits(n as nat)));
    }
}

/// Append one line holding a boolean value.
fn push_line_bool(out: &mut Vec<char>, k: char, b: bool)
    ensures
        final(out)@ == old(out)@ + line1(k, bool_chars(b)),
{
    out.push(k);
    out.push('=');
    push_bool(out, b);
    out.push('\n');
    proof {
        assert(out@ =~= old(out)@ + line1(k, bool_chars(b)));
    }
}

/// Append all the lines of a global record.
fn push_global(out: &mut Vec<char>, g: &GlobalConfig)
    ensures
        final(out)@ == old(out)@ + spec_encode_global(g@),
{
    push_line_escaped(out, 'c', &g.colorscheme);
    push_line_escaped(out, 't', &g.monaco_editor_theme);
    push_line_digits(out, 's', g.font_size);
    push_line_bool(out, 'w', g.word_wrap);
    push_line_bool(out, 'i', g.show_invisibles);
    push_line_bool(out, 'm', g.transparent_mode);
    push_line_digits(out, 'o', g.window_opacity_pct);
    proof {
        assert(out@ =~= old(out)@ + spec_encode_global(g@));
    }
}

/// Write a global record in the text form.
pub fn encode_global(g: &GlobalConfig) -> (r: String)
    ensures
        r@ == spec_encode_global(g@),
{
    let mut out: Vec<char> = Vec::new();
    push_global(&mut out, g);
    proof {
        assert(out@ =~= spec_encode_global(g@));
    }
    chars_to_string(&out)
}

/// Read a global record from the text form. `Ok` exactly when the text is a
/// well-formed global record; the result then satisfies the global validity
/// conditions. A present-but-malformed text is an error, never replaced with
/// defaults.
pub fn decode_global(s: &str) -> (r: Result<GlobalConfig, ConfigError>)
    ensures
        match r {
            Ok(g) => spec_decode_global(s@) == Some(g@) && g@.wf(),
            Err(e) => spec_decode_global(s@) is None && e == ConfigError::MalformedConfig,
        },
{
    let v = str_to_chars(s);
    let mut cur = GlobalConfig::default();
    let mut pos: usize = 0;
    proof {
        assert(v@.skip(0) =~= v@);
    }
    while pos < v.len()
        invariant
            pos <= v@.len(),
            v@ == s@,
            cur@.wf(),
            spec_decode_global(s@) == match parse_lines(v@.skip(pos as int)) {
                None => None::<GlobalConfigV>,
                Some(pairs) => fold_global(cur@, pairs),
            },
        decreases v@.len() - pos,
    {
        let (key, payload, np) = match next_line(&v, pos) {
            Some(kpn) => kpn,
            None => {
                return Err(ConfigError::MalformedConfig);
            },
        };
        let ghost rest = v@.skip(np as int);
        let ok = apply_global_exec(&mut cur, &key, &payload);
        proof {
            if parse_lines(rest) is Some {
                let tail = parse_lines(rest)->Some_0;
                assert((seq![(key@, payload@)] + tail).drop_first() =~= tail);
            }
        }
        if !ok {
            return Err(ConfigError::MalformedConfig);
        }
        pos = np;
    }
    proof {
        assert(v@.skip(v@.len() as int) =~= Seq::<char>::empty());
        assert(fold_global(cur@, Seq::empty()) == Some(cur@));
    }
    Ok(cur)
}

/// Apply one line to a global record being read; `false` when the payload is
/// not valid for the key, in which case the record is unchanged.
fn apply_global_exec(cur: &mut GlobalConfig, key: &Vec<char>, payload: &Vec<char>) -> (ok: bool)
    ensures
        ok ==> apply_global(old(cur)@, key@, payload@) == Some(final(cur)@),
        !ok ==> apply_global(old(cur)@, key@, payload@) is None && final(cur)@ == old(cur)@,
        old(cur)@.wf() ==> final(cur)@.wf(),
{
    if key.len() == 1 && key[0] == 'c' {
        proof {
            assert(key@ =~= seq!['c']);
        }
        match unescape_chars(payload) {
            Some(x) => {
                cur.colorscheme = chars_to_string(&x);
                proof {
                    assert(cur@ =~= (GlobalConfigV { colorscheme: x@, ..old(cur)@ }));
                }
                true
            },
            None => false,
        }
    } else if key.len() == 1 && key[0] == 't' {
        proof {
            assert(key@ =~= seq!['t']);
        }
        match unescape_chars(payload) {
            Some(x) => {
                cur.monaco_editor_theme = chars_to_string(&x);
                proof {
                    assert(cur@ =~= (GlobalConfigV { monaco_editor_theme: x@, ..old(cur)@ }));
                }
                true
            },
            None => false,
        }
    } else if key.len() == 1 && key[0] == 's' {
        proof {
            assert(key@ =~= seq!['s']);
        }
        match parse_u32_chars(payload) {
            Some(n) => {
                if n >= 1 {
                    cur.font_size = n;
                    proof {
                        assert(cur@ =~= (GlobalConfigV { font_size: n, ..old(cur)@ }));
                    }
                    true
                } else {
                    false
                }
            },
            None => false,
        }
    } else if key.len() == 1 && key[0] == 'w' {
        proof {
            assert(key@ =~= seq!['w']);
        }
        match parse_bool_chars(payload) {
            Some(b) => {
                cur.word_wrap = b;
                proof {
                    assert(cur@ =~= (GlobalConfigV { word_wrap: b, ..old(cur)@ }));
                }
                true
            },
            None => false,
        }
    } else if key.len() == 1 && key[0] == 'i' {
        proof {
            assert(key@ =~= seq!['i']);
        }
        match parse_bool_chars(payload) {
            Some(b) => {
                cur.show_invisibles = b;
                proof {
                    assert(cur@ =~= (GlobalConfigV { show_invisibles: b, ..old(cur)@ }));
                }
                true
            },
            None => false,
        }
    } else if key.len() == 1 && key[0] == 'm' {
        proof {
            assert(key@ =~= seq!['m']);
        }
        match parse_bool_chars(payload) {
            Some(b) => {
                cur.transparent_mode = b;
                proof {
                    assert(cur@ =~= (GlobalConfigV { transparent_mode: b, ..old(cur)@ }));
                }
                true
            },
            None => false,
        }
    } else if key.len() == 1 && key[0] == 'o' {
        proof {
            assert(key@ =~= seq!['o']);
        }
        match parse_u32_chars(payload) {
            Some(n) => {
                if n <= 100 {
                    cur.window_opacity_pct = n;
                    proof {
                        assert(cur@ =~= (GlobalConfigV { window_opacity_pct: n, ..old(cur)@ }));
                    }
                    true
                } else {
                    false
                }
            },
            None => false,
        }
    } else {
        proof {
            lemma_key_facts();
        }
        true
    }
}

// ---------------------------------------------------------------------------
// Instance records
// ---------------------------------------------------------------------------

/// Effect of one `(key, payload)` pair on an instance record being read: a
/// list key appends its entry, rejecting a duplicate and an over-long
/// most-recently-used list; an unknown key changes nothing.
pub open spec fn apply_instance(iv: InstanceConfigV, key: Seq<char>, p: Seq<char>) -> Option<
    InstanceConfigV,
> {
    if key == seq!['r'] {
        match unescape(p) {
            Some(x) => if iv.recent_files.len() < RECENT_FILES_CAP && !iv.recent_files.contains(
                x,
            ) {
                Some(InstanceConfigV { recent_files: iv.recent_files.push(x), ..iv })
            } else {
                None
            },
            None => None,
        }
    } else if key == seq!['p'] {
        match unescape(p) {
            Some(x) => if !iv.opened_files.contains(x) {
                Some(InstanceConfigV { opened_files: iv.opened_files.push(x), ..iv })
            } else {
                None
            },
            None => None,
        }
    } else {
        Some(iv)
    }
}

pub open spec fn fold_instance(iv: InstanceConfigV, pairs: Seq<(Seq<char>, Seq<char>)>) -> Option<
    InstanceConfigV,
>
    decreases pairs.len(),
{
    if pairs.len() == 0 {
        Some(iv)
    } else {
        match apply_instance(iv, pairs[0].0, pairs[0].1) {
            None => None,
            Some(i2) => fold_instance(i2, pairs.drop_first()),
        }
    }
}

/// What [`decode_instance`] reads out of a text.
pub open spec fn spec_decode_instance(s: Seq<char>) -> Option<InstanceConfigV> {
    match parse_lines(s) {
        None => None,
        Some(pairs) => fold_instance(default_instance(), pairs),
    }
}

/// What [`encode_instance`] writes: the most-recently-used list, then the
/// opened list, one entry per line, in order.
pub open spec fn spec_encode_instance(iv: InstanceConfigV) -> Seq<char> {
    list_lines('r', iv.recent_files) + list_lines('p', iv.opened_files)
}

/// The pairs the lines of a list field parse into.
pub open spec fn list_pairs(k: char, l: Seq<Seq<char>>) -> Seq<(Seq<char>, Seq<char>)> {
    Seq::new(l.len(), |i: int| (seq![k], escape(l[i])))
}

/// Peeling the lines of a list field off the front of a text prepends its
/// pairs to the pairs of the remainder.
pub proof fn lemma_parse_list_lines(k: char, l: Seq<Seq<char>>, rest: Seq<char>)
    requires
        k != '\n',
        k != '=',
    ensures
        parse_lines(list_lines(k, l) + rest) == match parse_lines(rest) {
            None => None::<Seq<(Seq<char>, Seq<char>)>>,
            Some(r) => Some(list_pairs(k, l) + r),
        },
    decreases l.len(),
{
    if l.len() == 0 {
        assert(list_lines(k, l) + rest =~= rest);
        if parse_lines(rest) is Some {
            assert(list_pairs(k, l) + parse_lines(rest)->Some_0 =~= parse_lines(rest)->Some_0);
        }
    } else {
        lemma_parse_list_lines(k, l.drop_first(), rest);
        lemma_escape_no_newline(l[0]);
        let tail = list_lines(k, l.drop_first()) + rest;
        assert(list_lines(k, l) + rest =~= line1(k, escape(l[0])) + tail);
        lemma_parse_line1(k, escape(l[0]), tail);
        if parse_lines(rest) is Some {
            let r = parse_lines(rest)->Some_0;
            assert(seq![(seq![k], escape(l[0]))] + (list_pairs(k, l.drop_first()) + r)
                =~= list_pairs(k, l) + r);
        }
    }
}

/// Reading the lines of a most-recently-used list appends its entries, in
/// order, to the record so far.
proof fn lemma_fold_recent(i0: InstanceConfigV, l: Seq<Seq<char>>, more: Seq<(Seq<char>, Seq<char>)>)
    requires
        distinct_entries(i0.recent_files + l),
        i0.recent_files.len() + l.len() <= RECENT_FILES_CAP,
    ensures
        fold_instance(i0, list_pairs('r', l) + more) == fold_instance(
            InstanceConfigV { recent_files: i0.recent_files + l, ..i0 },
            more,
        ),
    decreases l.len(),
{
    lemma_key_facts();
    if l.len() == 0 {
        assert(list_pairs('r', l) + more =~= more);
        assert(InstanceConfigV { recent_files: i0.recent_files + l, ..i0 } =~= i0);
    } else {
        let x = l[0];
        lemma_unescape_escape(x);
        let ps = list_pairs('r', l) + more;
        assert(ps[0] == (seq!['r'], escape(x)));
        assert(!i0.recent_files.contains(x)) by {
            if i0.recent_files.contains(x) {
                let j = choose|j: int|
                    0 <= j < i0.recent_files.len() && i0.recent_files[j] == x;
                assert((i0.recent_files + l)[j] == x);
                assert((i0.recent_files + l)[i0.recent_files.len() as int] == x);
            }
        }
        let i1 = InstanceConfigV { recent_files: i0.recent_files.push(x), ..i0 };
        assert(apply_instance(i0, ps[0].0, ps[0].1) == Some(i1));
        assert(i1.recent_files + l.drop_first() =~= i0.recent_files + l);
        lemma_fold_recent(i1, l.drop_first(), more);
        assert(ps.drop_first() =~= list_pairs('r', l.drop_first()) + more);
        assert(InstanceConfigV { recent_files: i1.recent_files + l.drop_first(), ..i1 }
            =~= InstanceConfigV { recent_files: i0.recent_files + l, ..i0 });
    }
}

/// Reading the lines of an opened-files list appends its entries, in order,
/// to the record so far.
proof fn lemma_fold_opened(i0: InstanceConfigV, l: Seq<Seq<char>>, more: Seq<(Seq<char>, Seq<char>)>)
    requires
        distinct_entries(i0.opened_files + l),
    ensures
        fold_instance(i0, list_pairs('p', l) + more) == fold_instance(
            InstanceConfigV { opened_files: i0.opened_files + l, ..i0 },
            more,
        ),
    decreases l.len(),
{
    lemma_key_facts();
    if l.len() == 0 {
        assert(list_pairs('p', l) + more =~= more);
        assert(InstanceConfigV { opened_files: i0.opened_files + l, ..i0 } =~= i0);
    } else {
        let x = l[0];
        lemma_unescape_escape(x);
        let ps = list_pairs('p', l) + more;
        assert(ps[0] == (seq!['p'], escape(x)));
        assert(!i0.opened_files.contains(x)) by {
            if i0.opened_files.contains(x) {
                let j = choose|j: int|
                    0 <= j < i0.opened_files.len() && i0.opened_files[j] == x;
                assert((i0.opened_files + l)[j] == x);
                assert((i0.opened_files + l)[i0.opened_files.len() as int] == x);
            }
        }
        let i1 = InstanceConfigV { opened_files: i0.opened_files.push(x), ..i0 };
        assert(apply_instance(i0, ps[0].0, ps[0].1) == Some(i1));
        assert(i1.opened_files + l.drop_first() =~= i0.opened_files + l);
        lemma_fold_opened(i1, l.drop_first(), more);
        assert(ps.drop_first() =~= list_pairs('p', l.drop_first()) + more);
        assert(InstanceConfigV { opened_files: i1.opened_files + l.drop_first(), ..i1 }
            =~= InstanceConfigV { opened_files: i0.opened_files + l, ..i0 });
    }
}

/// Decoding inverts encoding: no information is lost by a round trip through
/// the text form, for any valid instance record.
pub proof fn lemma_instance_round_trip(iv: InstanceConfigV)
    requires
        iv.wf(),
    ensures
        spec_decode_instance(spec_encode_instance(iv)) == Some(iv),
{
    let lr = list_lines('r', iv.recent_files);
    let lp = list_lines('p', iv.opened_files);
    assert(lp + Seq::<char>::empty() =~= lp);
    lemma_parse_list_lines('p', iv.opened_files, Seq::empty());
    assert(parse_lines(Seq::<char>::empty()) == Some(Seq::<(Seq<char>, Seq<char>)>::empty()));
    lemma_parse_list_lines('r', iv.recent_files, lp);
    let pp = list_pairs('p', iv.opened_files);
    let rp = list_pairs('r', iv.recent_files);
    assert(pp + Seq::<(Seq<char>, Seq<char>)>::empty() =~= pp);
    assert(parse_lines(spec_encode_instance(iv)) == Some(rp + pp));
    let d = default_instance();
    assert(d.recent_files + iv.recent_files =~= iv.recent_files);
    lemma_fold_recent(d, iv.recent_files, pp);
    let i1 = InstanceConfigV { recent_files: d.recent_files + iv.recent_files, ..d };
    assert(i1.opened_files + iv.opened_files =~= iv.opened_files);
    assert(pp + Seq::<(Seq<char>, Seq<char>)>::empty() =~= pp);
    lemma_fold_opened(i1, iv.opened_files, Seq::empty());
    assert(fold_instance(i1, pp) == fold_instance(i1, pp + Seq::<(Seq<char>, Seq<char>)>::empty()));
    let i2 = InstanceConfigV { opened_files: i1.opened_files + iv.opened_files, ..i1 };
    assert(i2 =~= iv);
}

/// Append the lines of one list field, one entry per line, in order.
fn push_list_lines(out: &mut Vec<char>, k: char, l: &Vec<String>)
    ensures
        final(out)@ == old(out)@ + list_lines(k, l.deep_view()),
{
    let mut j: usize = 0;
    proof {
        assert(list_lines(k, l.deep_view().take(0)) == Seq::<char>::empty());
        assert(out@ =~= old(out)@ + list_lines(k, l.deep_view().take(0)));
    }
    while j < l.len()
        invariant
            j <= l@.len(),
            l.deep_view().len() == l@.len(),
            out@ == old(out)@ + list_lines(k, l.deep_view().take(j as int)),
        decreases l@.len() - j,
    {
        proof {
            assert(l.deep_view()[j as int] == l@[j as int]@);
        }
        push_line_escaped(out, k, &l[j]);
        proof {
            assert(l.deep_view().take(j + 1) =~= l.deep_view().take(j as int).push(
                l.deep_view()[j as int],
            ));
            lemma_list_lines_snoc(k, l.deep_view().take(j as int), l.deep_view()[j as int]);
            assert(out@ =~= old(out)@ + list_lines(k, l.deep_view().take(j + 1)));
        }
        j += 1;
    }
    proof {
        assert(l.deep_view().take(l@.len() as int) =~= l.deep_view());
    }
}

/// Write an instance record in the text form.
pub fn encode_instance(iv: &InstanceConfig) -> (r: String)
    ensures
        r@ == spec_encode_instance(iv@),
{
    let mut out: Vec<char> = Vec::new();
    push_list_lines(&mut out, 'r', &iv.recent_files);
    push_list_lines(&mut out, 'p', &iv.opened_files);
    proof {
        assert(out@ =~= spec_encode_instance(iv@));
    }
    chars_to_string(&out)
}

/// Apply one line to an instance record being read; `false` when the payload
/// is not valid for the key, in which case the record is unchanged.
fn apply_instance_exec(cur: &mut InstanceConfig, key: &Vec<char>, payload: &Vec<char>) -> (ok: bool)
    ensures
        ok ==> apply_instance(old(cur)@, key@, payload@) == Some(final(cur)@),
        !ok ==> apply_instance(old(cur)@, key@, payload@) is None && final(cur)@ == old(cur)@,
        old(cur)@.wf() ==> final(cur)@.wf(),
{
    if key.len() == 1 && key[0] == 'r' {
        proof {
            assert(key@ =~= seq!['r']);
        }
        match unescape_chars(payload) {
            Some(x) => {
                let entry = chars_to_string(&x);
                if cur.recent_files.len() < RECENT_FILES_CAP && !contains_string(
                    &cur.recent_files,
                    &entry,
                ) {
                    let ghost prev = cur@;
                    cur.recent_files.push(entry);
                    proof {
                        assert(cur.recent_files.deep_view() =~= prev.recent_files.push(x@));
                        assert(cur@ =~= (InstanceConfigV {
                            recent_files: prev.recent_files.push(x@),
                            ..prev
                        }));
                        if prev.wf() {
                            lemma_distinct_push(prev.recent_files, x@);
                        }
                    }
                    true
                } else {
                    false
                }
            },
            None => false,
        }
    } else if key.len() == 1 && key[0] == 'p' {
        proof {
            assert(key@ =~= seq!['p']);
        }
        match unescape_chars(payload) {
            Some(x) => {
                let entry = chars_to_string(&x);
                if !contains_string(&cur.opened_files, &entry) {
                    let ghost prev = cur@;
                    cur.opened_files.push(entry);
                    proof {
                        assert(cur.opened_files.deep_view() =~= prev.opened_files.push(x@));
                        assert(cur@ =~= (InstanceConfigV {
                            opened_files: prev.opened_files.push(x@),
                            ..prev
                        }));
                        if prev.wf() {
                            lemma_distinct_push(prev.opened_files, x@);
                        }
                    }
                    true
                } else {
                    false
                }
            },
            None => false,
        }
    } else {
        proof {
            lemma_key_facts();
        }
        true
    }
}

/// Appending an absent entry keeps a list duplicate-free.
pub proof fn lemma_distinct_push(s: Seq<Seq<char>>, x: Seq<char>)
    requires
        distinct_entries(s),
        !s.contains(x),
    ensures
        distinct_entries(s.push(x)),
{
    assert forall|i: int, j: int| 0 <= i < j < s.push(x).len() implies s.push(x)[i] != s.push(
        x,
    )[j] by {
        if j < s.len() {
        } else {
            assert(s.push(x)[j] == x);
            assert(s.push(x)[i] == s[i]);
            if s[i] == x {
                assert(s.contains(x));
            }
        }
    }
}

/// Read an instance record from the text form. `Ok` exactly when the text is
/// a well-formed instance record; the result then satisfies the instance
/// validity conditions. A present-but-malformed text is an error, never
/// replaced with defaults.
pub fn decode_instance(s: &str) -> (r: Result<InstanceConfig, ConfigError>)
    ensures
        match r {
            Ok(iv) => spec_decode_instance(s@) == Some(iv@) && iv@.wf(),
            Err(e) => spec_decode_instance(s@) is None && e == ConfigError::MalformedConfig,
        },
{
    let v = str_to_chars(s);
    let mut cur = InstanceConfig::default();
    let mut pos: usize = 0;
    proof {
        assert(v@.skip(0) =~= v@);
    }
    while pos < v.len()
        invariant
            pos <= v@.len(),
            v@ == s@,
            cur@.wf(),
            spec_decode_instance(s@) == match parse_lines(v@.skip(pos as int)) {
                None => None::<InstanceConfigV>,
                Some(pairs) => fold_instance(cur@, pairs),
            },
        decreases v@.len() - pos,
    {
        let (key, payload, np) = match next_line(&v, pos) {
            Some(kpn) => kpn,
            None => {
                return Err(ConfigError::MalformedConfig);
            },
        };
        let ghost rest = v@.skip(np as int);
        let ok = apply_instance_exec(&mut cur, &key, &payload);
        proof {
            if parse_lines(rest) is Some {
                let tail = parse_lines(rest)->Some_0;
                assert((seq![(key@, payload@)] + tail).drop_first() =~= tail);
            }
        }
        if !ok {
            return Err(ConfigError::MalformedConfig);
        }
        pos = np;
    }
    proof {
        assert(v@.skip(v@.len() as int) =~= Seq::<char>::empty());
        assert(fold_instance(cur@, Seq::empty()) == Some(cur@));
    }
    Ok(cur)
}

// ---------------------------------------------------------------------------
// Merged records (the legacy single-file format)
// ---------------------------------------------------------------------------

/// The keys a global record uses.
pub open spec fn is_global_key(key: Seq<char>) -> bool {
    ||| key == seq!['c']
    ||| key == seq!['t']
    ||| key == seq!['s']
    ||| key == seq!['w']
    ||| key == seq!['i']
    ||| key == seq!['m']
    ||| key == seq!['o']
}

/// The keys an instance record uses.
pub open spec fn is_instance_key(key: Seq<char>) -> bool {
    key == seq!['r'] || key == seq!['p']
}

/// Effect of one `(key, payload)` pair on a merged record being read: each
/// key acts on the part it belongs to.
pub open spec fn apply_app(a: AppConfigV, key: Seq<char>, p: Seq<char>) -> Option<AppConfigV> {
    if is_global_key(key) {
        match apply_global(a.global, key, p) {
            Some(g) => Some(AppConfigV { global: g, ..a }),
            None => None,
        }
    } else if is_instance_key(key) {
        match apply_instance(a.instance, key, p) {
            Some(i) => Some(AppConfigV { instance: i, ..a }),
            None => None,
        }
    } else {
        Some(a)
    }
}

pub open spec fn fold_app(a: AppConfigV, pairs: Seq<(Seq<char>, Seq<char>)>) -> Option<AppConfigV>
    decreases pairs.len(),
{
    if pairs.len() == 0 {
        Some(a)
    } else {
        match apply_app(a, pairs[0].0, pairs[0].1) {
            None => None,
            Some(a2) => fold_app(a2, pairs.drop_first()),
        }
    }
}

/// What [`decode_app`] reads out of a text.
pub open spec fn spec_decode_app(s: Seq<char>) -> Option<AppConfigV> {
    match parse_lines(s) {
        None => None,
        Some(pairs) => fold_app(default_app(), pairs),
    }
}

/// What [`encode_app`] writes: the global lines, then the instance lines.
pub open spec fn spec_encode_app(a: AppConfigV) -> Seq<char> {
    spec_encode_global(a.global) + spec_encode_instance(a.instance)
}

/// On global-keyed pairs, reading a merged record acts exactly as reading a
/// global record on its global part.
#[verifier::rlimit(50)]
proof fn lemma_fold_app_global(a0: AppConfigV, g: GlobalConfigV, more: Seq<(Seq<char>, Seq<char>)>)
    requires
        g.wf(),
    ensures
        fold_app(a0, spec_global_pairs(g) + more) == fold_app(
            AppConfigV { global: g, ..a0 },
            more,
        ),
{
    lemma_key_facts();
    lemma_unescape_escape(g.colorscheme);
    lemma_unescape_escape(g.monaco_editor_theme);
    lemma_digits_parse(g.font_size as nat);
    lemma_digits_parse(g.window_opacity_pct as nat);
    lemma_bool_round_trip(g.word_wrap);
    lemma_bool_round_trip(g.show_invisibles);
    lemma_bool_round_trip(g.transparent_mode);
    let g0 = a0.global;
    let ps = spec_global_pairs(g) + more;
    let g1 = GlobalConfigV { colorscheme: g.colorscheme, ..g0 };
    let g2 = GlobalConfigV { monaco_editor_theme: g.monaco_editor_theme, ..g1 };
    let g3 = GlobalConfigV { font_size: g.font_size, ..g2 };
    let g4 = GlobalConfigV { word_wrap: g.word_wrap, ..g3 };
    let g5 = GlobalConfigV { show_invisibles: g.show_invisibles, ..g4 };
    let g6 = GlobalConfigV { transparent_mode: g.transparent_mode, ..g5 };
    let g7 = GlobalConfigV { window_opacity_pct: g.window_opacity_pct, ..g6 };
    let a1 = AppConfigV { global: g1, ..a0 };
    let a2 = AppConfigV { global: g2, ..a0 };
    let a3 = AppConfigV { global: g3, ..a0 };
    let a4 = AppConfigV { global: g4, ..a0 };
    let a5 = AppConfigV { global: g5, ..a0 };
    let a6 = AppConfigV { global: g6, ..a0 };
    let a7 = AppConfigV { global: g7, ..a0 };
    assert(ps.drop_first() =~= spec_global_pairs(g).skip(1) + more);
    assert(fold_app(a0, ps) == fold_app(a1, ps.drop_first()));
    let ps1 = ps.drop_first();
    assert(ps1.drop_first() =~= spec_global_pairs(g).skip(2) + more);
    assert(fold_app(a1, ps1) == fold_app(a2, ps1.drop_first()));
    let ps2 = ps1.drop_first();
    assert(ps2.drop_first() =~= spec_global_pairs(g).skip(3) + more);
    assert(fold_app(a2, ps2) == fold_app(a3, ps2.drop_first()));
    let ps3 = ps2.drop_first();
    assert(ps3.drop_first() =~= spec_global_pairs(g).skip(4) + more);
    assert(fold_app(a3, ps3) == fold_app(a4, ps3.drop_first()));
    let ps4 = ps3.drop_first();
    assert(ps4.drop_first() =~= spec_global_pairs(g).skip(5) + more);
    assert(fold_app(a4, ps4) == fold_app(a5, ps4.drop_first()));
    let ps5 = ps4.drop_first();
    assert(ps5.drop_first() =~= spec_global_pairs(g).skip(6) + more);
    assert(fold_app(a5, ps5) == fold_app(a6, ps5.drop_first()));
    let ps6 = ps5.drop_first();
    assert(ps6.drop_first() =~= more);
    assert(fold_app(a6, ps6) == fold_app(a7, ps6.drop_first()));
    assert(a7 =~= (AppConfigV { global: g, ..a0 }));
}

/// On instance-keyed pairs, reading a merged record acts exactly as reading
/// an instance record on its instance part.
proof fn lemma_fold_app_instance_bridge(a: AppConfigV, pairs: Seq<(Seq<char>, Seq<char>)>)
    requires
        forall|j: int| 0 <= j < pairs.len() ==> is_instance_key(#[trigger] pairs[j].0),
    ensures
        fold_app(a, pairs) == match fold_instance(a.instance, pairs) {
            Some(i) => Some(AppConfigV { instance: i, ..a }),
            None => None::<AppConfigV>,
        },
    decreases pairs.len(),
{
    lemma_key_facts();
    if pairs.len() == 0 {
        assert(AppConfigV { instance: a.instance, ..a } =~= a);
    } else {
        assert(is_instance_key(pairs[0].0));
        match apply_instance(a.instance, pairs[0].0, pairs[0].1) {
            None => {},
            Some(i2) => {
                let a2 = AppConfigV { instance: i2, ..a };
                assert(apply_app(a, pairs[0].0, pairs[0].1) == Some(a2));
                lemma_fold_app_instance_bridge(a2, pairs.drop_first());
                assert(forall|j: int|
                    0 <= j < pairs.drop_first().len() ==> pairs.drop_first()[j] == pairs[j + 1]);
                if fold_instance(i2, pairs.drop_first()) is Some {
                    let i3 = fold_instance(i2, pairs.drop_first())->Some_0;
                    assert(AppConfigV { instance: i3, ..a2 } =~= (AppConfigV {
                        instance: i3,
                        ..a
                    }));
                }
            },
        }
    }
}

/// Every pair of a list field carries that field's key.
proof fn lemma_list_pairs_keys(k: char, l: Seq<Seq<char>>)
    ensures
        forall|j: int| 0 <= j < list_pairs(k, l).len() ==> #[trigger] list_pairs(k, l)[j].0
            == seq![k],
{
}

/// Decoding inverts encoding: no information is lost by a round trip through
/// the text form, for any valid merged record.
#[verifier::rlimit(50)]
pub proof fn lemma_app_round_trip(a: AppConfigV)
    requires
        a.wf(),
    ensures
        spec_decode_app(spec_encode_app(a)) == Some(a),
{
    let enc_i = spec_encode_instance(a.instance);
    let lr = list_lines('r', a.instance.recent_files);
    let lp = list_lines('p', a.instance.opened_files);
    // Parse: the global lines, then the two list fields.
    assert(lp + Seq::<char>::empty() =~= lp);
    lemma_parse_list_lines('p', a.instance.opened_files, Seq::empty());
    assert(parse_lines(Seq::<char>::empty()) == Some(Seq::<(Seq<char>, Seq<char>)>::empty()));
    lemma_parse_list_lines('r', a.instance.recent_files, lp);
    assert(enc_i =~= lr + lp);
    lemma_fold_global_encode(a.global, a.global, enc_i);
    assert(spec_encode_app(a) == spec_encode_global(a.global) + enc_i);
    let pp = list_pairs('p', a.instance.opened_files);
    let rp = list_pairs('r', a.instance.recent_files);
    assert(pp + Seq::<(Seq<char>, Seq<char>)>::empty() =~= pp);
    let ip = rp + pp;
    assert(parse_lines(spec_encode_app(a)) == Some(spec_global_pairs(a.global) + ip));
    // Fold: the global pairs rebuild the global part ...
    lemma_fold_app_global(default_app(), a.global, ip);
    assert(fold_app(default_app(), spec_global_pairs(a.global) + ip) == fold_app(
        AppConfigV { global: a.global, ..default_app() },
        ip,
    ));
    let a1 = AppConfigV { global: a.global, ..default_app() };
    // ... and the instance pairs rebuild the instance part.
    assert forall|j: int| 0 <= j < ip.len() implies is_instance_key(#[trigger] ip[j].0) by {
        lemma_list_pairs_keys('r', a.instance.recent_files);
        lemma_list_pairs_keys('p', a.instance.opened_files);
        if j < rp.len() {
            assert(ip[j] == rp[j]);
        } else {
            assert(ip[j] == pp[j - rp.len()]);
        }
    }
    lemma_fold_app_instance_bridge(a1, ip);
    let d = default_instance();
    assert(d.recent_files + a.instance.recent_files =~= a.instance.recent_files);
    lemma_fold_recent(d, a.instance.recent_files, pp);
    let i1 = InstanceConfigV { recent_files: d.recent_files + a.instance.recent_files, ..d };
    assert(i1.opened_files + a.instance.opened_files =~= a.instance.opened_files);
    lemma_fold_opened(i1, a.instance.opened_files, Seq::empty());
    assert(fold_instance(i1, pp) == fold_instance(
        i1,
        pp + Seq::<(Seq<char>, Seq<char>)>::empty(),
    ));
    let i2 = InstanceConfigV { opened_files: i1.opened_files + a.instance.opened_files, ..i1 };
    assert(i2 =~= a.instance);
    assert(fold_instance(a1.instance, ip) == Some(a.instance)) by {
        assert(a1.instance == default_instance());
    }
    assert(AppConfigV { instance: a.instance, ..a1 } =~= a);
}

/// Write a merged record in the text form (the legacy single-file format).
pub fn encode_app(a: &AppConfig) -> (r: String)
    ensures
        r@ == spec_encode_app(a@),
{
    let mut out: Vec<char> = Vec::new();
    let g = a.to_global();
    push_global(&mut out, &g);
    push_list_lines(&mut out, 'r', &a.recent_files);
    push_list_lines(&mut out, 'p', &a.opened_files);
    proof {
        assert(out@ =~= spec_encode_app(a@));
    }
    chars_to_string(&out)
}

/// Apply one line to a merged record being read; `false` when the payload is
/// not valid for the key, in which case the record is unchanged.
fn apply_app_exec(cur: &mut AppConfig, key: &Vec<char>, payload: &Vec<char>) -> (ok: bool)
    ensures
        ok ==> apply_app(old(cur)@, key@, payload@) == Some(final(cur)@),
        !ok ==> apply_app(old(cur)@, key@, payload@) is None && final(cur)@ == old(cur)@,
        old(cur)@.wf() ==> final(cur)@.wf(),
{
    let mut g = cur.to_global();
    let single = key.len() == 1;
    if single && (key[0] == 'c' || key[0] == 't' || key[0] == 's' || key[0] == 'w' || key[0] == 'i'
        || key[0] == 'm' || key[0] == 'o') {
        let ok = apply_global_exec(&mut g, key, payload);
        if ok {
            cur.colorscheme = g.colorscheme;
            cur.monaco_editor_theme = g.monaco_editor_theme;
            cur.font_size = g.font_size;
            cur.word_wrap = g.word_wrap;
            cur.show_invisibles = g.show_invisibles;
            cur.transparent_mode = g.transparent_mode;
            cur.window_opacity_pct = g.window_opacity_pct;
            proof {
                assert(key@ =~= seq![key@[0]]);
                assert(is_global_key(key@));
                assert(cur@ =~= (AppConfigV { global: g@, ..old(cur)@ }));
            }
            true
        } else {
            proof {
                assert(key@ =~= seq![key@[0]]);
                assert(is_global_key(key@));
            }
            false
        }
    } else if single && (key[0] == 'r' || key[0] == 'p') {
        let mut iv = cur.to_instance();
        let ok = apply_instance_exec(&mut iv, key, payload);
        if ok {
            cur.recent_files = iv.recent_files;
            cur.opened_files = iv.opened_files;
            proof {
                lemma_key_facts();
                assert(key@ =~= seq![key@[0]]);
                assert(is_instance_key(key@) && !is_global_key(key@));
                assert(cur@ =~= (AppConfigV { instance: iv@, ..old(cur)@ }));
            }
            true
        } else {
            proof {
                lemma_key_facts();
                assert(key@ =~= seq![key@[0]]);
                assert(is_instance_key(key@) && !is_global_key(key@));
                assert(cur@ =~= old(cur)@);
            }
            false
        }
    } else {
        proof {
            lemma_key_facts();
            assert(!is_global_key(key@) && !is_instance_key(key@));
            assert(cur@ =~= old(cur)@);
        }
        true
    }
}

/// Read a merged record from the text form. `Ok` exactly when the text is a
/// well-formed merged record; the result then satisfies both parts' validity
/// conditions. A present-but-malformed text is an error, never replaced with
/// defaults.
pub fn decode_app(s: &str) -> (r: Result<AppConfig, ConfigError>)
    ensures
        match r {
            Ok(a) => spec_decode_app(s@) == Some(a@) && a@.wf(),
            Err(e) => spec_decode_app(s@) is None && e == ConfigError::MalformedConfig,
        },
{
    let v = str_to_chars(s);
    let mut cur = AppConfig::default();
    let mut pos: usize = 0;
    proof {
        assert(v@.skip(0) =~= v@);
    }
    while pos < v.len()
        invariant
            pos <= v@.len(),
            v@ == s@,
            cur@.wf(),
            spec_decode_app(s@) == match parse_lines(v@.skip(pos as int)) {
                None => None::<AppConfigV>,
                Some(pairs) => fold_app(cur@, pairs),
            },
        decreases v@.len() - pos,
    {
        let (key, payload, np) = match next_line(&v, pos) {
            Some(kpn) => kpn,
            None => {
                return Err(ConfigError::MalformedConfig);
            },
        };
        let ghost rest = v@.skip(np as int);
        let ok = apply_app_exec(&mut cur, &key, &payload);
        proof {
            if parse_lines(rest) is Some {
                let tail = parse_lines(rest)->Some_0;
                assert((seq![(key@, payload@)] + tail).drop_first() =~= tail);
            }
        }
        if !ok {
            return Err(ConfigError::MalformedConfig);
        }
        pos = np;
    }
    proof {
        assert(v@.skip(v@.len() as int) =~= Seq::<char>::empty());
        assert(fold_app(cur@, Seq::empty()) == Some(cur@));
    }
    Ok(cur)
}

} // verus!
