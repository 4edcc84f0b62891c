//! The store's round-trip law: serializing a well-formed store and parsing
//! the text back yields the same store, section for section and key for key.
use vstd::prelude::*;

use crate::ini::{
    clean_char, clean_text, count_eq, entry_lines, find_idx, first_eq, first_nl, float_text_wf,
    header_line, header_name, infer_value, ini_wf, is_header, is_ws, join_lines,
    lemma_find_idx_none, lemma_first_eq_at, lemma_first_nl_at, lemma_sec_find_idx_at,
    lemma_sec_find_idx_none, line_value, lookup, parse_line, parse_lines, plain_char, quote_shaped,
    remove_ws, render_entry_line, render_lines, render_section_lines, render_value, sec_find_idx,
    section_wf, set_in_section, spec_parse, spec_render, split_lines, strip_cr, trim_end,
    trim_start, trim_ws, upsert_entry, upsert_section, IniError, ParseSt, SectionModel, ValueModel,
};
use crate::lit::{
    dec_digits, is_digit, is_f64_literal, is_i64_literal, digits_run, f64_body_start,
    is_number_from, lemma_dec_digits_val, lemma_render_i64_round, render_i64,
};
use crate::text::{lower, lower_seq};

verus! {

/// A key the serializer writes back readably: nonempty, free of whitespace,
/// `=` and line breaks, and not opening like a section header.
pub open spec fn key_wf(k: Seq<char>) -> bool {
    k.len() > 0 && clean_text(k) && k[0] != '['
}

/// A value the serializer writes back readably.
pub open spec fn rt_value_wf(v: ValueModel) -> bool {
    match v {
        ValueModel::Text(t) => forall|i: int|
            0 <= i < t.len() ==> plain_char(#[trigger] t[i]) && t[i] != '=',
        ValueModel::Integer(i) => -0x8000_0000_0000_0000 <= i <= 0x7fff_ffff_ffff_ffff,
        ValueModel::Float(t) => float_text_wf(t),
        ValueModel::Boolean(_) => true,
    }
}

/// A section name free of line breaks.
pub open spec fn name_wf(nm: Seq<char>) -> bool {
    forall|i: int| 0 <= i < nm.len() ==> plain_char(#[trigger] nm[i])
}

pub open spec fn rt_section_wf(s: SectionModel) -> bool {
    &&& section_wf(s)
    &&& name_wf(s.name)
    &&& forall|i: int|
        0 <= i < s.entries.len() ==> key_wf(#[trigger] s.entries[i].0) && rt_value_wf(
            s.entries[i].1,
        )
}

/// A store whose serialized text parses back to it: unique names and keys,
/// and every name, key and value line-safe.
pub open spec fn rt_wf(secs: Seq<SectionModel>) -> bool {
    &&& ini_wf(secs)
    &&& forall|i: int| 0 <= i < secs.len() ==> rt_section_wf(#[trigger] secs[i])
}

proof fn lemma_count_eq_zero(s: Seq<char>)
    requires
        forall|i: int| 0 <= i < s.len() ==> s[i] != '=',
    ensures
        count_eq(s) == 0,
    decreases s.len(),
{
    if s.len() > 0 {
        assert(forall|i: int| 0 <= i < s.len() - 1 ==> s.drop_last()[i] == s[i]);
        lemma_count_eq_zero(s.drop_last());
    }
}

proof fn lemma_count_eq_concat(a: Seq<char>, b: Seq<char>)
    ensures
        count_eq(a + b) == count_eq(a) + count_eq(b),
    decreases b.len(),
{
    if b.len() == 0 {
        assert(a + b =~= a);
    } else {
        assert((a + b).drop_last() =~= a + b.drop_last());
        assert((a + b).last() == b.last());
        lemma_count_eq_concat(a, b.drop_last());
    }
}

proof fn lemma_remove_ws_clean(s: Seq<char>)
    requires
        forall|i: int| 0 <= i < s.len() ==> !is_ws(#[trigger] s[i]),
    ensures
        remove_ws(s) == s,
    decreases s.len(),
{
    if s.len() > 0 {
        assert(forall|i: int| 0 <= i < s.len() - 1 ==> s.drop_last()[i] == s[i]);
        lemma_remove_ws_clean(s.drop_last());
        assert(remove_ws(s) == s.drop_last().push(s.last()));
        assert(s.drop_last().push(s.last()) =~= s);
    }
}

/// A float literal holds at least one character.
proof fn lemma_f64_literal_nonempty(t: Seq<char>)
    requires
        is_f64_literal(t),
    ensures
        t.len() > 0,
{
    if t.len() == 0 {
        reveal_strlit("inf");
        reveal_strlit("infinity");
        reveal_strlit("nan");
        let tail = lower_seq(t.subrange(0, 0));
        assert(tail.len() == 0);
        assert(("inf"@).len() == 3);
        assert(("infinity"@).len() == 8);
        assert(("nan"@).len() == 3);
        assert(digits_run(t, 0) == 0);
        assert(!is_number_from(t, 0));
    }
}

/// What the serializer's value text looks like, and that the parser reads it
/// back as the very value.
proof fn lemma_render_value_facts(v: ValueModel)
    requires
        rt_value_wf(v),
    ensures
        render_value(v).len() > 0,
        forall|i: int|
            0 <= i < render_value(v).len() ==> plain_char(#[trigger] render_value(v)[i])
                && render_value(v)[i] != '=',
        !is_ws(render_value(v)[0]),
        !is_ws(render_value(v).last()),
        line_value(render_value(v)) == v,
{
    reveal_strlit("true");
    reveal_strlit("false");
    let rv = render_value(v);
    match v {
        ValueModel::Text(t) => {
            assert(rv =~= seq!['"'] + t + seq!['"']);
            assert(rv[0] == '"');
            assert(rv.last() == '"');
            assert(forall|i: int| 0 < i < rv.len() - 1 ==> rv[i] == t[i - 1]);
            assert(quote_shaped(rv));
            assert(rv.subrange(1, rv.len() - 1) =~= t);
        },
        ValueModel::Integer(n) => {
            lemma_render_i64_round(n);
            lemma_dec_digits_val(if n >= 0 {
                n
            } else {
                -n
            });
            assert forall|i: int| 0 <= i < rv.len() implies plain_char(#[trigger] rv[i]) && rv[i]
                != '=' && !is_ws(rv[i]) && rv[i] != '"' by {
                if n < 0 {
                    if i == 0 {
                        assert(rv[i] == '-');
                    } else {
                        assert(rv[i] == dec_digits(-n)[i - 1]);
                        assert(is_digit(rv[i]));
                    }
                } else {
                    assert(is_digit(rv[i]));
                }
            }
            assert(!quote_shaped(rv));
            lemma_remove_ws_clean(rv);
            assert(line_value(rv) == infer_value(rv));
            assert(infer_value(rv) == ValueModel::Integer(n));
        },
        ValueModel::Float(t) => {
            lemma_f64_literal_nonempty(t);
            assert(forall|i: int| 0 <= i < t.len() ==> clean_char(#[trigger] t[i]));
            assert forall|i: int| 0 <= i < rv.len() implies !is_ws(#[trigger] rv[i]) by {
                assert(clean_char(rv[i]));
            }
            lemma_remove_ws_clean(rv);
            assert(!quote_shaped(rv));
            assert(line_value(rv) == infer_value(rv));
            assert(infer_value(rv) == ValueModel::Float(t));
        },
        ValueModel::Boolean(b) => {
            if b {
                assert(rv == "true"@);
                assert(rv.len() == 4);
                assert(rv[0] == 't' && rv[1] == 'r' && rv[2] == 'u' && rv[3] == 'e');
                assert(rv.last() == 'e');
                lemma_true_false_infer(true);
            } else {
                assert(rv == "false"@);
                assert(rv.len() == 5);
                assert(rv[0] == 'f' && rv[1] == 'a' && rv[2] == 'l' && rv[3] == 's' && rv[4]
                    == 'e');
                assert(rv.last() == 'e');
                lemma_true_false_infer(false);
            }
            assert forall|i: int| 0 <= i < rv.len() implies plain_char(#[trigger] rv[i]) && rv[i]
                != '=' && !is_ws(rv[i]) by {}
        },
    }
}

/// The words `true` and `false` are inferred as booleans: they are neither
/// integer nor float literals, nor quoted.
proof fn lemma_true_false_infer(b: bool)
    ensures
        line_value(render_value(ValueModel::Boolean(b))) == ValueModel::Boolean(b),
{
    reveal_strlit("true");
    reveal_strlit("false");
    reveal_strlit("inf");
    reveal_strlit("infinity");
    reveal_strlit("nan");
    let rv = render_value(ValueModel::Boolean(b));
    let t = if b {
        "true"@
    } else {
        "false"@
    };
    assert(rv == t);
    assert(t[0] == if b {
        't'
    } else {
        'f'
    });
    assert(!quote_shaped(rv));
    assert(forall|i: int| 0 <= i < t.len() ==> !is_ws(#[trigger] t[i]));
    lemma_remove_ws_clean(t);
    // not an integer literal: the first character is no sign and no digit
    assert(!is_i64_literal(t));
    // not a float literal
    let tail = lower_seq(t.subrange(0, t.len() as int));
    assert(t.subrange(0, t.len() as int) =~= t);
    assert(f64_body_start(t) == 0);
    assert(tail.len() == t.len());
    assert(("inf"@).len() == 3);
    assert(("infinity"@).len() == 8);
    assert(("nan"@).len() == 3);
    if b {
        assert(tail.len() == 4);
    } else {
        assert(tail[0] == lower('f'));
        assert(tail[0] == 'f');
        assert(("nan"@)[0] == 'n');
        assert(("infinity"@)[0] == 'i');
        assert(tail != "inf"@ && tail != "infinity"@ && tail != "nan"@);
    }
    assert(digits_run(t, 0) == 0);
    assert(!is_number_from(t, 0));
    assert(!is_f64_literal(t));
    if b {
        assert(infer_value(t) == ValueModel::Boolean(true));
    } else {
        assert(t != "true"@) by {
            assert(t.len() == 5 && ("true"@).len() == 4);
        }
        assert(infer_value(t) == ValueModel::Boolean(false));
    }
}

/// Every line the serializer emits is free of line breaks.
proof fn lemma_entry_line_plain(key: Seq<char>, v: ValueModel)
    requires
        key_wf(key),
        rt_value_wf(v),
    ensures
        forall|i: int|
            0 <= i < render_entry_line(key, v).len() ==> #[trigger] render_entry_line(key, v)[i]
                != '\n',
{
    lemma_render_value_facts(v);
    let l = render_entry_line(key, v);
    let rv = render_value(v);
    assert forall|i: int| 0 <= i < l.len() implies #[trigger] l[i] != '\n' by {
        if i < key.len() {
            assert(l[i] == key[i]);
            assert(clean_char(key[i]));
        } else if i < key.len() + 3 {
            assert(l[i] == seq![' ', '=', ' '][i - key.len()]);
        } else {
            assert(l[i] == rv[i - key.len() - 3]);
            assert(plain_char(rv[i - key.len() - 3]));
        }
    }
}

/// Joining line-break-free lines and splitting again yields the lines.
proof fn lemma_split_join(lines: Seq<Seq<char>>)
    requires
        forall|i: int, j: int|
            0 <= i < lines.len() && 0 <= j < lines[i].len() ==> #[trigger] lines[i][j] != '\n',
    ensures
        split_lines(join_lines(lines)) == lines,
    decreases lines.len(),
{
    if lines.len() > 0 {
        let l0 = lines[0];
        let rest = join_lines(lines.drop_first());
        let s = join_lines(lines);
        assert(s == l0 + seq!['\n'] + rest);
        assert forall|k: int| 0 <= k < l0.len() implies s[k] != '\n' by {
            assert(s[k] == l0[k]);
        }
        assert(s[l0.len() as int] == '\n');
        lemma_first_nl_at(s, l0.len() as int);
        assert(s.len() > 0);
        assert(s.subrange(0, l0.len() as int) =~= l0);
        assert(s.subrange(l0.len() + 1 as int, s.len() as int) =~= rest);
        assert(forall|i: int, j: int|
            0 <= i < lines.len() - 1 && 0 <= j < lines.drop_first()[i].len()
                ==> #[trigger] lines.drop_first()[i][j] == lines[i + 1][j]);
        lemma_split_join(lines.drop_first());
        assert(split_lines(s) == seq![l0] + split_lines(rest));
        assert(seq![l0] + lines.drop_first() =~= lines);
    }
}

/// Parsing one rendered entry line extends the open section by that entry.
proof fn lemma_parse_entry_line(st: ParseSt, name: Seq<char>, key: Seq<char>, v: ValueModel)
    requires
        st.cur == Some(name),
        key_wf(key),
        rt_value_wf(v),
    ensures
        parse_line(st, render_entry_line(key, v)) == Result::<ParseSt, IniError>::Ok(
            (ParseSt { secs: set_in_section(st.secs, name, key, v), cur: st.cur }),
        ),
{
    lemma_render_value_facts(v);
    let l = render_entry_line(key, v);
    let rv = render_value(v);
    let mid = seq![' ', '=', ' '];
    // no trailing carriage return, so nothing is stripped
    assert(l.last() == rv.last());
    assert(plain_char(rv.last()));
    assert(strip_cr(l) == l);
    // not a header: the first character is the key's, which is not `[`
    assert(l[0] == key[0]);
    assert(!is_header(l));
    // exactly one `=`
    lemma_count_eq_zero(key);
    lemma_count_eq_zero(rv);
    assert(count_eq(mid) == 1) by {
        let m1 = seq![' '];
        let m2 = seq![' ', '='];
        assert(count_eq(Seq::<char>::empty()) == 0);
        assert(m1.drop_last() =~= Seq::<char>::empty());
        assert(m1.last() == ' ');
        assert(count_eq(m1) == 0);
        assert(m2.drop_last() =~= m1);
        assert(m2.last() == '=');
        assert(count_eq(m2) == 1);
        assert(mid.drop_last() =~= m2);
        assert(mid.last() == ' ');
    }
    lemma_count_eq_concat(key, mid);
    lemma_count_eq_concat(key + mid, rv);
    assert((key + mid) + rv =~= l);
    assert(count_eq(l) == 1);
    // the `=` stands right after the key and one blank
    assert forall|k: int| 0 <= k < key.len() + 1 implies l[k] != '=' by {
        if k < key.len() {
            assert(l[k] == key[k]);
            assert(clean_char(key[k]));
        } else {
            assert(l[k] == ' ');
        }
    }
    assert(l[key.len() as int + 1] == '=');
    lemma_first_eq_at(l, key.len() as int + 1);
    // the key part reads back as the key
    assert(l.subrange(0, key.len() as int + 1) =~= key.push(' '));
    assert(key.push(' ').drop_last() =~= key);
    assert(key.push(' ').last() == ' ');
    assert(remove_ws(key.push(' ')) == remove_ws(key));
    assert(forall|i: int| 0 <= i < key.len() ==> !is_ws(#[trigger] key[i]));
    lemma_remove_ws_clean(key);
    // the value part reads back as the value
    let rawv = l.subrange(key.len() as int + 2, l.len() as int);
    assert(rawv =~= seq![' '] + rv);
    assert(rawv[0] == ' ');
    assert(rawv.drop_first() =~= rv);
    assert(trim_start(rawv) == trim_start(rv));
    assert(trim_start(rv) == rv);
    assert(trim_end(rv) == rv);
    assert(trim_ws(rawv) == rv);
    assert(line_value(rv) == v);
}

/// Parsing a rendered section's lines appends that section and leaves it
/// open, continuing with whatever lines follow.
proof fn lemma_parse_entry_lines(
    base: Seq<SectionModel>,
    sec: SectionModel,
    k: int,
    rest: Seq<Seq<char>>,
)
    requires
        rt_section_wf(sec),
        forall|j: int| 0 <= j < base.len() ==> base[j].name != sec.name,
        0 <= k <= sec.entries.len(),
    ensures
        parse_lines(
            (ParseSt {
                secs: base.push(
                    (SectionModel { name: sec.name, entries: sec.entries.subrange(0, k) }),
                ),
                cur: Some(sec.name),
            }),
            entry_lines(sec.entries).subrange(k, sec.entries.len() as int) + rest,
        ) == parse_lines((ParseSt { secs: base.push(sec), cur: Some(sec.name) }), rest),
    decreases sec.entries.len() - k,
{
    let lines = entry_lines(sec.entries).subrange(k, sec.entries.len() as int);
    let partial = SectionModel { name: sec.name, entries: sec.entries.subrange(0, k) };
    let st = ParseSt { secs: base.push(partial), cur: Some(sec.name) };
    if k == sec.entries.len() {
        assert(lines.len() == 0);
        assert(lines + rest =~= rest);
        assert(sec.entries.subrange(0, k) =~= sec.entries);
        assert(partial == sec);
    } else {
        let e = sec.entries[k];
        assert(lines[0] == render_entry_line(e.0, e.1));
        assert((lines + rest)[0] == lines[0]);
        lemma_parse_entry_line(st, sec.name, e.0, e.1);
        // the open section is the last one: its name is in no earlier section
        lemma_sec_find_idx_at(st.secs, sec.name, base.len() as int);
        // the key is new inside the partial section
        assert(forall|j: int|
            0 <= j < k ==> #[trigger] sec.entries.subrange(0, k)[j].0 == sec.entries[j].0);
        assert(forall|j: int| 0 <= j < k ==> sec.entries[j].0 != e.0);
        lemma_find_idx_none(partial.entries, e.0);
        let entries2 = upsert_entry(partial.entries, e.0, e.1);
        assert(entries2 =~= sec.entries.subrange(0, k + 1));
        let secs2 = set_in_section(st.secs, sec.name, e.0, e.1);
        assert(secs2 =~= base.push(
            (SectionModel { name: sec.name, entries: sec.entries.subrange(0, k + 1) }),
        ));
        assert((lines + rest).drop_first() =~= entry_lines(sec.entries).subrange(
            k + 1,
            sec.entries.len() as int,
        ) + rest);
        lemma_parse_entry_lines(base, sec, k + 1, rest);
    }
}

/// Parsing a rendered section block appends the section, whatever section
/// was open before.
proof fn lemma_parse_section(st: ParseSt, sec: SectionModel, rest: Seq<Seq<char>>)
    requires
        rt_section_wf(sec),
        forall|j: int| 0 <= j < st.secs.len() ==> st.secs[j].name != sec.name,
    ensures
        parse_lines(st, render_section_lines(sec) + rest) == parse_lines(
            (ParseSt { secs: st.secs.push(sec), cur: Some(sec.name) }),
            rest,
        ),
{
    let hl = header_line(sec.name);
    let all = render_section_lines(sec) + rest;
    assert(all[0] == hl);
    // the header line parses as a header of exactly the section's name
    assert(hl.last() == ']');
    assert(strip_cr(hl) == hl);
    assert(hl[0] == '[');
    assert(is_header(hl));
    assert(header_name(hl) =~= sec.name);
    lemma_sec_find_idx_none(st.secs, sec.name);
    let secs1 = upsert_section(st.secs, sec.name);
    assert(secs1 == st.secs.push((SectionModel { name: sec.name, entries: Seq::empty() })));
    let st1 = ParseSt { secs: secs1, cur: Some(sec.name) };
    assert(parse_line(st, hl) == Result::<ParseSt, IniError>::Ok(st1));
    // then the entry lines fill the section
    assert(all.drop_first() =~= entry_lines(sec.entries) + (seq![Seq::<char>::empty()] + rest));
    assert(Seq::empty() =~= sec.entries.subrange(0, 0));
    assert(entry_lines(sec.entries) =~= entry_lines(sec.entries).subrange(
        0,
        sec.entries.len() as int,
    ));
    lemma_parse_entry_lines(st.secs, sec, 0, seq![Seq::<char>::empty()] + rest);
    let st2 = ParseSt { secs: st.secs.push(sec), cur: Some(sec.name) };
    // the blank line that closes the section changes nothing
    let blank = Seq::<char>::empty();
    assert((seq![blank] + rest)[0] == blank);
    assert(strip_cr(blank) == blank);
    assert(!is_header(blank));
    assert(count_eq(blank) == 0);
    assert(parse_line(st2, blank) == Result::<ParseSt, IniError>::Ok(st2));
    assert((seq![blank] + rest).drop_first() =~= rest);
}

/// Parsing the rendered blocks of the remaining sections appends them all.
proof fn lemma_parse_sections(done: Seq<SectionModel>, todo: Seq<SectionModel>, cur: Option<
    Seq<char>,
>)
    requires
        forall|i: int| 0 <= i < todo.len() ==> rt_section_wf(#[trigger] todo[i]),
        forall|i: int, j: int|
            0 <= i < done.len() && 0 <= j < todo.len() ==> done[i].name != todo[j].name,
        forall|i: int, j: int| 0 <= i < j < todo.len() ==> todo[i].name != todo[j].name,
    ensures
        parse_lines((ParseSt { secs: done, cur }), render_lines(todo)) == Result::<
            Seq<SectionModel>,
            IniError,
        >::Ok(done + todo),
    decreases todo.len(),
{
    if todo.len() == 0 {
        assert(done + todo =~= done);
    } else {
        let sec = todo[0];
        assert(render_lines(todo) == render_section_lines(sec) + render_lines(todo.drop_first()));
        lemma_parse_section((ParseSt { secs: done, cur }), sec, render_lines(todo.drop_first()));
        assert forall|i: int, j: int|
            0 <= i < done.push(sec).len() && 0 <= j < todo.drop_first().len() implies done.push(
            sec,
        )[i].name != todo.drop_first()[j].name by {
            assert(todo.drop_first()[j] == todo[j + 1]);
            if i < done.len() {
                assert(done.push(sec)[i] == done[i]);
            } else {
                assert(done.push(sec)[i] == sec);
            }
        }
        assert forall|i: int, j: int|
            0 <= i < j < todo.drop_first().len() implies todo.drop_first()[i].name
            != todo.drop_first()[j].name by {
            assert(todo.drop_first()[i] == todo[i + 1]);
            assert(todo.drop_first()[j] == todo[j + 1]);
        }
        assert forall|i: int|
            0 <= i < todo.drop_first().len() implies rt_section_wf(todo.drop_first()[i]) by {
            assert(todo.drop_first()[i] == todo[i + 1]);
        }
        lemma_parse_sections(done.push(sec), todo.drop_first(), Some(sec.name));
        assert(done.push(sec) + todo.drop_first() =~= done + todo);
    }
}

/// Every line of a well-formed store's rendering is free of line breaks.
proof fn lemma_render_lines_plain(secs: Seq<SectionModel>)
    requires
        rt_wf(secs),
    ensures
        forall|i: int, j: int|
            0 <= i < render_lines(secs).len() && 0 <= j < render_lines(secs)[i].len()
                ==> #[trigger] render_lines(secs)[i][j] != '\n',
    decreases secs.len(),
{
    if secs.len() > 0 {
        let sec = secs[0];
        let sl = render_section_lines(sec);
        assert forall|i: int, j: int|
            0 <= i < sl.len() && 0 <= j < sl[i].len() implies #[trigger] sl[i][j] != '\n' by {
            if i == 0 {
                let hl = header_line(sec.name);
                assert(sl[0] == hl);
                if j == 0 {
                    assert(hl[j] == '[');
                } else if j == hl.len() - 1 {
                    assert(hl[j] == ']');
                } else {
                    assert(hl[j] == sec.name[j - 1]);
                    assert(plain_char(sec.name[j - 1]));
                }
            } else if i <= sec.entries.len() {
                let e = sec.entries[i - 1];
                assert(sl[i] == render_entry_line(e.0, e.1));
                lemma_entry_line_plain(e.0, e.1);
            } else {
                assert(sl[i] == Seq::<char>::empty());
            }
        }
        assert(forall|j: int| 0 <= j < secs.len() - 1 ==> #[trigger] secs.drop_first()[j] == secs[j
            + 1]);
        assert(rt_wf(secs.drop_first()));
        lemma_render_lines_plain(secs.drop_first());
        let rl = render_lines(secs);
        assert(rl == sl + render_lines(secs.drop_first()));
        assert forall|i: int, j: int|
            0 <= i < rl.len() && 0 <= j < rl[i].len() implies #[trigger] rl[i][j] != '\n' by {
            if i < sl.len() {
                assert(rl[i] == sl[i]);
            } else {
                assert(rl[i] == render_lines(secs.drop_first())[i - sl.len()]);
            }
        }
    }
}

/// The round-trip law: serializing a well-formed store and parsing the text
/// back yields exactly the store, every section and every key with its
/// value.
pub proof fn lemma_parse_render_round_trip(secs: Seq<SectionModel>)
    requires
        rt_wf(secs),
    ensures
        spec_parse(spec_render(secs)) == Result::<Seq<SectionModel>, IniError>::Ok(secs),
{
    lemma_render_lines_plain(secs);
    lemma_split_join(render_lines(secs));
    lemma_parse_sections(Seq::empty(), secs, None);
    assert(Seq::<SectionModel>::empty() + secs =~= secs);
}

} // verus!

