//! Conversions between the exposition format, the structured record array
//! and the tabular form.  Parsing keeps the numeric tokens as text, so the
//! value of a sample passes through with its original precision; only the
//! timestamp is truncated to an integer when a record is written back out.

use vstd::prelude::*;
use vstd::string::StringExecFns;
use crate::strutil::{
    split_lines, split_lines_exec, lines_view, chars_to_string, str_to_chars, push_char,
    is_space_char, has_char, trim_spec,
};
use crate::numtext::{
    is_float_text, is_float_chars, float_trunc, i64_dec_str, i64_to_dec_chars, trunc_float_chars,
};
use crate::expo::{
    SampleModel, LineKind, LineModel, labels_view, parse_line, parse_line_spec, name_key,
    parse_label_piece, split_commas, fold_labels, metric_parts, unquote,
};
use crate::error::VmCliError;

verus! {

/// One structured record: a named, labelled series point with both a
/// timestamp and a value, as the record-array form carries it.
#[derive(Debug, Clone, PartialEq, Eq)]
pub struct StructuredRecord {
    pub name: String,
    pub labels: Vec<(String, String)>,
    pub value: String,
    pub timestamp: String,
}

/// The mathematical model of a record.
pub ghost struct RecordModel {
    pub name: Seq<char>,
    pub labels: Seq<(Seq<char>, Seq<char>)>,
    pub value: Seq<char>,
    pub timestamp: Seq<char>,
}

impl View for StructuredRecord {
    type V = RecordModel;

    open spec fn view(&self) -> RecordModel {
        RecordModel {
            name: self.name@,
            labels: labels_view(self.labels@),
            value: self.value@,
            timestamp: self.timestamp@,
        }
    }
}

impl DeepView for StructuredRecord {
    type V = RecordModel;

    open spec fn deep_view(&self) -> RecordModel {
        self.view()
    }
}

/// A record is well formed when its numeric tokens follow the
/// floating-point grammar.
pub open spec fn record_wf(r: RecordModel) -> bool {
    is_float_text(r.value) && is_float_text(r.timestamp)
}

/// The record a parsed sample with a timestamp yields.
pub open spec fn record_of_sample(s: SampleModel) -> RecordModel {
    RecordModel {
        name: s.name,
        labels: s.labels,
        value: s.value,
        timestamp: s.timestamp->0,
    }
}

/// The records of a line sequence: one per parsed sample that carries a
/// timestamp; comments, blanks, malformed lines and samples without a
/// timestamp are dropped.
pub open spec fn records_of_lines(lines: Seq<Seq<char>>) -> Seq<RecordModel>
    decreases lines.len(),
{
    if lines.len() == 0 {
        Seq::<RecordModel>::empty()
    } else {
        let rest = records_of_lines(lines.skip(1));
        match parse_line_spec(lines[0]) {
            LineModel::Sample(s) => if s.timestamp is Some {
                seq![record_of_sample(s)] + rest
            } else {
                rest
            },
            _ => rest,
        }
    }
}

/// What converting exposition text to the record array yields.
pub open spec fn to_structured_spec(content: Seq<char>) -> Seq<RecordModel> {
    records_of_lines(split_lines(content))
}

/// Exposition text to the structured record array.  Malformed lines are
/// dropped silently in this direction.
#[verifier::loop_isolation(false)]
pub fn to_structured(content: &str) -> (r: Vec<StructuredRecord>)
    ensures
        r.deep_view() == to_structured_spec(content@),
        forall|i: int| 0 <= i < r@.len() ==> #[trigger] r@[i]@ == to_structured_spec(content@)[i],
{
    let chars = str_to_chars(content);
    let lines = split_lines_exec(&chars);
    let ghost lv = lines_view(lines@);
    let n = lines.len();
    let mut out: Vec<StructuredRecord> = Vec::new();
    let ghost goal = records_of_lines(lv);
    let mut i: usize = 0;
    proof {
        assert(out.deep_view() =~= Seq::<RecordModel>::empty());
        assert(lv.skip(0) =~= lv);
    }
    while i < n
        invariant
            0 <= i <= n,
            out.deep_view() + records_of_lines(lv.skip(i as int)) == goal,
        decreases n - i,
    {
        let ghost before = out.deep_view();
        proof {
            assert(lv[i as int] == lines@[i as int]@);
            assert(lv.skip(i as int)[0] == lv[i as int]);
            assert(lv.skip(i as int).skip(1) =~= lv.skip(i + 1));
        }
        let line_s = chars_to_string(&lines[i]);
        let parsed = parse_line(line_s.as_str());
        match parsed {
            LineKind::Sample(s) => {
                match s.timestamp {
                    Some(t) => {
                        let rec = StructuredRecord {
                            name: s.name,
                            labels: s.labels,
                            value: s.value,
                            timestamp: t,
                        };
                        out.push(rec);
                        proof {
                            assert(out.deep_view() =~= before.push(rec@));
                            assert(before.push(rec@) + records_of_lines(lv.skip(i + 1)) =~= before
                                + records_of_lines(lv.skip(i as int)));
                        }
                    },
                    None => {},
                }
            },
            _ => {},
        }
        i += 1;
    }
    proof {
        assert(lv.skip(n as int) =~= Seq::<Seq<char>>::empty());
        assert(out.deep_view() + records_of_lines(lv.skip(n as int)) =~= out.deep_view());
        assert(forall|i: int| 0 <= i < out@.len() ==> #[trigger] out@[i]@ == out.deep_view()[i]);
    }
    out
}

/// `key="value"` as text.
pub open spec fn pair_text(p: (Seq<char>, Seq<char>)) -> Seq<char> {
    p.0 + seq!['=', '"'] + p.1 + seq!['"']
}

pub open spec fn rest_join(ls: Seq<(Seq<char>, Seq<char>)>) -> Seq<char>
    decreases ls.len(),
{
    if ls.len() == 0 {
        Seq::<char>::empty()
    } else {
        seq![','] + pair_text(ls[0]) + rest_join(ls.skip(1))
    }
}

/// The labels joined with commas, each as `key="value"`.
pub open spec fn labels_joined(ls: Seq<(Seq<char>, Seq<char>)>) -> Seq<char> {
    if ls.len() == 0 {
        Seq::<char>::empty()
    } else {
        pair_text(ls[0]) + rest_join(ls.skip(1))
    }
}

/// The label block of a record: nothing when there are no labels, else
/// the joined pairs in braces.
pub open spec fn label_block(ls: Seq<(Seq<char>, Seq<char>)>) -> Seq<char> {
    if ls.len() == 0 {
        Seq::<char>::empty()
    } else {
        seq!['{'] + labels_joined(ls) + seq!['}']
    }
}

/// One record written back as an exposition line, newline included; the
/// timestamp is truncated to an integer, the value kept as it came.
pub open spec fn exposition_line(r: RecordModel) -> Seq<char> {
    r.name + label_block(r.labels) + seq![' '] + r.value + seq![' '] + i64_dec_str(
        float_trunc(r.timestamp),
    ) + seq!['\n']
}

/// The record array written back as exposition text.
pub open spec fn to_exposition_spec(records: Seq<RecordModel>) -> Seq<char>
    decreases records.len(),
{
    if records.len() == 0 {
        Seq::<char>::empty()
    } else {
        exposition_line(records[0]) + to_exposition_spec(records.skip(1))
    }
}

#[verifier::loop_isolation(false)]
fn append_label_block(out: &mut String, labels: &Vec<(String, String)>)
    ensures
        final(out)@ == old(out)@ + label_block(labels_view(labels@)),
{
    let ghost lv = labels_view(labels@);
    let n = labels.len();
    if n == 0 {
        proof {
            assert(old(out)@ + label_block(lv) =~= old(out)@);
        }
        return ;
    }
    push_char(out, '{');
    let mut i: usize = 0;
    while i < n
        invariant
            0 < i <= n || (i == 0 && n > 0),
            i <= n,
            n == labels@.len(),
            i == 0 ==> out@ == old(out)@ + seq!['{'],
            i > 0 ==> out@ + rest_join(lv.skip(i as int)) == old(out)@ + seq!['{']
                + labels_joined(lv),
        decreases n - i,
    {
        let ghost snap = out@;
        if i > 0 {
            push_char(out, ',');
        }
        let pair = &labels[i];
        out.append(pair.0.as_str());
        push_char(out, '=');
        push_char(out, '"');
        out.append(pair.1.as_str());
        push_char(out, '"');
        proof {
            assert(lv[i as int] == (labels@[i as int].0@, labels@[i as int].1@));
            assert(lv.skip(i as int)[0] == lv[i as int]);
            assert(lv.skip(i as int).skip(1) =~= lv.skip(i + 1));
            if i == 0 {
                assert(out@ =~= snap + pair_text(lv[0]));
                assert(out@ + rest_join(lv.skip(1)) =~= old(out)@ + seq!['{'] + labels_joined(
                    lv,
                ));
            } else {
                assert(out@ =~= snap + (seq![','] + pair_text(lv[i as int])));
                assert(rest_join(lv.skip(i as int)) == seq![','] + pair_text(lv[i as int])
                    + rest_join(lv.skip(i + 1)));
                assert(out@ + rest_join(lv.skip(i + 1)) =~= snap + rest_join(lv.skip(i as int)));
            }
        }
        i += 1;
    }
    push_char(out, '}');
    proof {
        assert(rest_join(lv.skip(n as int)) =~= Seq::<char>::empty());
        assert(out@ =~= old(out)@ + label_block(lv));
    }
}

fn append_exposition_line(out: &mut String, rec: &StructuredRecord)
    requires
        is_float_text(rec@.timestamp),
    ensures
        final(out)@ == old(out)@ + exposition_line(rec@),
{
    out.append(rec.name.as_str());
    append_label_block(out, &rec.labels);
    push_char(out, ' ');
    out.append(rec.value.as_str());
    push_char(out, ' ');
    let ts_chars = str_to_chars(rec.timestamp.as_str());
    let t = trunc_float_chars(&ts_chars);
    let t_chars = i64_to_dec_chars(t);
    let t_s = chars_to_string(&t_chars);
    out.append(t_s.as_str());
    push_char(out, '\n');
    proof {
        assert(out@ =~= old(out)@ + exposition_line(rec@));
    }
}

/// The record array written back as exposition text, one line per record.
#[verifier::loop_isolation(false)]
pub fn to_exposition(records: &Vec<StructuredRecord>) -> (r: String)
    requires
        forall|i: int| 0 <= i < records@.len() ==> is_float_text(#[trigger] records@[i]@.timestamp),
    ensures
        r@ == to_exposition_spec(records.deep_view()),
{
    let ghost rv = records.deep_view();
    let n = records.len();
    let mut out = String::new();
    let mut i: usize = 0;
    proof {
        assert(rv.skip(0) =~= rv);
    }
    while i < n
        invariant
            0 <= i <= n,
            out@ + to_exposition_spec(rv.skip(i as int)) == to_exposition_spec(rv),
        decreases n - i,
    {
        let ghost snap = out@;
        proof {
            assert(rv[i as int] == records@[i as int]@);
            assert(rv.skip(i as int)[0] == rv[i as int]);
            assert(rv.skip(i as int).skip(1) =~= rv.skip(i + 1));
        }
        append_exposition_line(&mut out, &records[i]);
        proof {
            assert(out@ + to_exposition_spec(rv.skip(i + 1)) =~= snap + to_exposition_spec(
                rv.skip(i as int),
            ));
        }
        i += 1;
    }
    proof {
        assert(to_exposition_spec(rv.skip(n as int)) =~= Seq::<char>::empty());
        assert(out@ =~= out@ + to_exposition_spec(rv.skip(n as int)));
    }
    out
}

/// Well-formedness of one label pair for the round-trip law: a named key
/// free of `=`, commas and whitespace, other than the reserved name key,
/// and a value free of commas and whitespace.
pub open spec fn label_pair_wf(p: (Seq<char>, Seq<char>)) -> bool {
    &&& p.0.len() > 0
    &&& p.0 != name_key()
    &&& forall|k: int|
        0 <= k < p.0.len() ==> #[trigger] p.0[k] != '=' && p.0[k] != ',' && !is_space_char(p.0[k])
    &&& forall|k: int| 0 <= k < p.1.len() ==> #[trigger] p.1[k] != ',' && !is_space_char(p.1[k])
}

/// Well-formedness of a record for the round-trip law: a nonempty name
/// free of `{` and whitespace, well-formed labels with pairwise distinct
/// keys, and numeric tokens of the floating-point grammar.
pub open spec fn round_trip_wf(r: RecordModel) -> bool {
    &&& r.name.len() > 0
    &&& r.name[0] != '#'
    &&& forall|k: int|
        0 <= k < r.name.len() ==> #[trigger] r.name[k] != '{' && !is_space_char(r.name[k])
    &&& forall|i: int| 0 <= i < r.labels.len() ==> label_pair_wf(#[trigger] r.labels[i])
    &&& forall|i: int, j: int|
        0 <= i < j < r.labels.len() ==> (#[trigger] r.labels[i]).0 != (#[trigger] r.labels[j]).0
    &&& is_float_text(r.value)
    &&& is_float_text(r.timestamp)
}

proof fn lemma_pair_text_chars(p: (Seq<char>, Seq<char>))
    requires
        label_pair_wf(p),
    ensures
        forall|k: int|
            0 <= k < pair_text(p).len() ==> #[trigger] pair_text(p)[k] != ','
                && !is_space_char(pair_text(p)[k]) && pair_text(p)[k] != '\n',
{
    let t = pair_text(p);
    assert forall|k: int|
        0 <= k < t.len() implies #[trigger] t[k] != ',' && !is_space_char(t[k]) && t[k]
        != '\n' by {
        let kl = p.0.len() as int;
        if k < kl {
            assert(t[k] == p.0[k]);
        } else if k == kl {
            assert(t[k] == '=');
        } else if k == kl + 1 {
            assert(t[k] == '"');
        } else if k < t.len() - 1 {
            assert(t[k] == p.1[k - kl - 2]);
        } else {
            assert(t[k] == '"');
        }
        if t[k] == '\n' {
            assert(is_space_char(t[k]));
        }
    }
}

/// Parsing the printed form of a well-formed pair gives the pair back.
proof fn lemma_parse_pair(p: (Seq<char>, Seq<char>))
    requires
        label_pair_wf(p),
    ensures
        parse_label_piece(pair_text(p)) == Some(p),
{
    let t = pair_text(p);
    let kl = p.0.len() as int;
    assert(t[kl] == '=');
    assert forall|k: int| 0 <= k < kl implies t[k] != '=' by {
        assert(t[k] == p.0[k]);
    }
    crate::strutil::lemma_first_pos_at(t, '=', kl);
    assert(t.take(kl) =~= p.0);
    let rest = t.skip(kl + 1);
    assert(rest =~= seq!['"'] + p.1 + seq!['"']);
    assert(rest.len() >= 2 && rest[0] == '"' && rest[rest.len() - 1] == '"');
    assert(unquote(rest) =~= p.1);
}

/// Splitting the joined label text at commas recovers each pair's text.
proof fn lemma_split_joined(ls: Seq<(Seq<char>, Seq<char>)>)
    requires
        ls.len() > 0,
        forall|i: int| 0 <= i < ls.len() ==> label_pair_wf(#[trigger] ls[i]),
    ensures
        split_commas(labels_joined(ls)) =~= ls.map_values(|p: (Seq<char>, Seq<char>)| pair_text(p)),
    decreases ls.len(),
{
    let j = labels_joined(ls);
    let t0 = pair_text(ls[0]);
    lemma_pair_text_chars(ls[0]);
    if ls.len() == 1 {
        assert(j =~= t0);
        assert forall|k: int| 0 <= k < j.len() implies j[k] != ',' by {
            assert(j[k] == t0[k]);
        }
        crate::strutil::lemma_no_char(j, ',');
        crate::strutil::lemma_first_pos_has(j, ',');
        assert(split_commas(j) =~= seq![j]);
    } else {
        let tail = ls.skip(1);
        assert(rest_join(tail) == seq![','] + pair_text(tail[0]) + rest_join(tail.skip(1)));
        assert(j =~= t0 + seq![','] + labels_joined(tail));
        let c0 = t0.len() as int;
        assert(j[c0] == ',');
        assert forall|k: int| 0 <= k < c0 implies j[k] != ',' by {
            assert(j[k] == t0[k]);
        }
        crate::strutil::lemma_first_pos_at(j, ',', c0);
        assert(j.take(c0) =~= t0);
        assert(j.skip(c0 + 1) =~= labels_joined(tail));
        assert forall|i: int| 0 <= i < tail.len() implies label_pair_wf(#[trigger] tail[i]) by {
            assert(tail[i] == ls[i + 1]);
        }
        lemma_split_joined(tail);
        assert(split_commas(j) =~= seq![t0] + tail.map_values(
            |p: (Seq<char>, Seq<char>)| pair_text(p),
        ));
        assert(seq![t0] + tail.map_values(|p: (Seq<char>, Seq<char>)| pair_text(p))
            =~= ls.map_values(|p: (Seq<char>, Seq<char>)| pair_text(p)));
    }
}

/// Folding printed pairs onto an accumulator appends them in order.
proof fn lemma_fold_append(
    ls: Seq<(Seq<char>, Seq<char>)>,
    name: Seq<char>,
    acc: Seq<(Seq<char>, Seq<char>)>,
)
    requires
        forall|i: int| 0 <= i < ls.len() ==> label_pair_wf(#[trigger] ls[i]),
        forall|i: int, j: int|
            0 <= i < j < ls.len() ==> (#[trigger] ls[i]).0 != (#[trigger] ls[j]).0,
        forall|i: int, j: int|
            0 <= i < ls.len() && 0 <= j < acc.len() ==> (#[trigger] ls[i]).0 != (
            #[trigger] acc[j]).0,
    ensures
        fold_labels(
            ls.map_values(|p: (Seq<char>, Seq<char>)| pair_text(p)),
            name,
            acc,
        ) == (name, acc + ls),
    decreases ls.len(),
{
    let pieces = ls.map_values(|p: (Seq<char>, Seq<char>)| pair_text(p));
    if ls.len() == 0 {
        assert(acc + ls =~= acc);
    } else {
        lemma_parse_pair(ls[0]);
        assert(pieces[0] == pair_text(ls[0]));
        assert(parse_label_piece(pieces[0]) == Some(ls[0]));
        assert(ls[0].0 != name_key());
        assert forall|j: int| 0 <= j < acc.len() implies acc[j].0 != ls[0].0 by {}
        crate::expo::lemma_assoc_set_absent(acc, ls[0].0, ls[0].1);
        let acc2 = acc.push(ls[0]);
        let tail = ls.skip(1);
        assert(pieces.skip(1) =~= tail.map_values(|p: (Seq<char>, Seq<char>)| pair_text(p)));
        assert forall|i: int| 0 <= i < tail.len() implies label_pair_wf(#[trigger] tail[i]) by {
            assert(tail[i] == ls[i + 1]);
        }
        assert forall|i: int, j: int|
            0 <= i < j < tail.len() implies (#[trigger] tail[i]).0 != (#[trigger] tail[j]).0 by {
            assert(tail[i] == ls[i + 1] && tail[j] == ls[j + 1]);
        }
        assert forall|i: int, j: int|
            0 <= i < tail.len() && 0 <= j < acc2.len() implies (#[trigger] tail[i]).0 != (
            #[trigger] acc2[j]).0 by {
            assert(tail[i] == ls[i + 1]);
            if j < acc.len() {
                assert(acc2[j] == acc[j]);
            } else {
                assert(acc2[j] == ls[0]);
            }
        }
        lemma_fold_append(tail, name, acc2);
        assert(acc2 + tail =~= acc + ls);
    }
}

/// The metric portion of a printed record reads back as its name and labels.
proof fn lemma_metric_parts_rt(r: RecordModel)
    requires
        round_trip_wf(r),
    ensures
        has_char(r.name + label_block(r.labels), '{') ==> has_char(
            r.name + label_block(r.labels),
            '}',
        ),
        metric_parts(r.name + label_block(r.labels)) == (r.name, r.labels),
{
    let m = r.name + label_block(r.labels);
    if r.labels.len() == 0 {
        assert(m =~= r.name);
        assert forall|k: int| 0 <= k < m.len() implies m[k] != '{' by {
            assert(m[k] == r.name[k]);
        }
        crate::strutil::lemma_no_char(m, '{');
        assert(metric_parts(m) == (m, Seq::<(Seq<char>, Seq<char>)>::empty()));
    } else {
        let nl = r.name.len() as int;
        let j = labels_joined(r.labels);
        assert(m =~= r.name + seq!['{'] + j + seq!['}']);
        assert(m[nl] == '{');
        assert(m[m.len() - 1] == '}');
        crate::strutil::lemma_has_char_witness(m, '{', nl);
        crate::strutil::lemma_has_char_witness(m, '}', m.len() - 1);
        assert forall|k: int| 0 <= k < nl implies m[k] != '{' by {
            assert(m[k] == r.name[k]);
        }
        crate::strutil::lemma_first_pos_at(m, '{', nl);
        assert(m.take(nl) =~= r.name);
        assert(m.subrange(nl + 1, m.len() - 1) =~= j);
        lemma_split_joined(r.labels);
        lemma_fold_append(r.labels, r.name, Seq::<(Seq<char>, Seq<char>)>::empty());
        assert(Seq::<(Seq<char>, Seq<char>)>::empty() + r.labels =~= r.labels);
    }
}

/// Trimming a line that starts on ink and ends with one newline drops
/// exactly that newline.
proof fn lemma_trim_line(s: Seq<char>)
    requires
        s.len() >= 2,
        !is_space_char(s[0]),
        !is_space_char(s[s.len() - 2]),
        s[s.len() - 1] == '\n',
    ensures
        trim_spec(s) =~= s.drop_last(),
{
    assert(crate::strutil::first_non_space_from(s, 0) == 0);
    assert(is_space_char(s[s.len() - 1]));
    assert(crate::strutil::last_non_space_before(s, s.len() as int)
        == crate::strutil::last_non_space_before(s, s.len() - 1));
    assert(crate::strutil::last_non_space_before(s, s.len() - 1) == s.len() - 1);
    assert(trim_spec(s) == s.subrange(0, s.len() - 1));
    assert(s.subrange(0, s.len() - 1) =~= s.drop_last());
}

/// Round trip: a well-formed record written as an exposition line parses
/// back as a sample with the same name, the same labels in the same
/// order, the same value text, and the timestamp truncated to an integer.
pub proof fn lemma_exposition_round_trip(r: RecordModel)
    requires
        round_trip_wf(r),
    ensures
        parse_line_spec(exposition_line(r)) == LineModel::Sample(
            SampleModel {
                name: r.name,
                labels: r.labels,
                value: r.value,
                timestamp: Some(i64_dec_str(float_trunc(r.timestamp))),
            },
        ),
        float_trunc(i64_dec_str(float_trunc(r.timestamp))) == float_trunc(r.timestamp),
{
    let line = exposition_line(r);
    let b = label_block(r.labels);
    let ts = float_trunc(r.timestamp);
    let tt = i64_dec_str(ts);
    crate::numtext::lemma_trunc_of_dec(ts);
    crate::numtext::lemma_dec_str_no_space(ts);
    crate::numtext::lemma_float_text_no_space(r.value);
    let metric = r.name + b;
    let head = metric + seq![' '] + r.value;
    assert(line =~= head + seq![' '] + tt + seq!['\n']);
    // trimming drops exactly the newline
    assert(line[0] == r.name[0]);
    assert(line[line.len() - 2] == tt[tt.len() - 1]);
    lemma_trim_line(line);
    let t = line.drop_last();
    assert(t =~= head + seq![' '] + tt);
    // the last space separates the timestamp token
    let hl = head.len() as int;
    assert(t[hl] == ' ');
    assert forall|k: int| hl < k < t.len() implies t[k] != ' ' by {
        assert(t[k] == tt[k - hl - 1]);
        if t[k] == ' ' {
            assert(is_space_char(t[k]));
        }
    }
    crate::strutil::lemma_last_pos_at(t, ' ', hl);
    assert(t.take(hl) =~= head);
    assert(t.skip(hl + 1) =~= tt);
    // the last space of the head separates the value token
    let ml = metric.len() as int;
    assert(head[ml] == ' ');
    assert forall|k: int| ml < k < head.len() implies head[k] != ' ' by {
        assert(head[k] == r.value[k - ml - 1]);
        if head[k] == ' ' {
            assert(is_space_char(head[k]));
        }
    }
    crate::strutil::lemma_last_pos_at(head, ' ', ml);
    assert(head.take(ml) =~= metric);
    assert(head.skip(ml + 1) =~= r.value);
    // both trailing tokens are numeric, so the two-token form applies
    assert(is_float_text(tt));
    assert(is_float_text(r.value));
    lemma_metric_parts_rt(r);
    assert(metric_parts(metric).0 == r.name);
    assert(r.name.len() > 0);
    // assemble the parse
    assert(trim_spec(line) == t);
    assert(t.len() > 0);
    assert(t[0] == r.name[0]);
    assert(t[0] != '#');
    assert(crate::strutil::last_pos(t, ' ') == hl);
    assert(t.take(hl) == head);
    assert(crate::strutil::last_pos(head, ' ') == ml);
    assert(head.take(ml) == metric);
    assert(head.skip(ml + 1) == r.value);
    assert(t.skip(hl + 1) == tt);
    assert(parse_line_spec(line) == crate::expo::line_sample(metric, r.value, Some(tt)));
}


/// One record as a tabular row: newline, then timestamp, value and bare
/// metric name, comma-separated.  Label pairs are deliberately dropped.
pub open spec fn csv_row(r: RecordModel) -> Seq<char> {
    seq!['\n'] + r.timestamp + seq![','] + r.value + seq![','] + r.name
}

pub open spec fn csv_rows(records: Seq<RecordModel>) -> Seq<char>
    decreases records.len(),
{
    if records.len() == 0 {
        Seq::<char>::empty()
    } else {
        csv_row(records[0]) + csv_rows(records.skip(1))
    }
}

/// What converting exposition text to the tabular form yields: the fixed
/// header, then one row per parsed sample.
pub open spec fn exposition_to_csv_spec(content: Seq<char>) -> Seq<char> {
    "timestamp,value,metric_name"@ + csv_rows(to_structured_spec(content))
}

/// Exposition text to the three-column tabular form.  Malformed and
/// comment lines are dropped silently in this direction.
#[verifier::loop_isolation(false)]
pub fn exposition_to_csv(content: &str) -> (r: String)
    ensures
        r@ == exposition_to_csv_spec(content@),
{
    let records = to_structured(content);
    let ghost rv = records.deep_view();
    let mut out = String::from_str("timestamp,value,metric_name");
    let n = records.len();
    let mut i: usize = 0;
    proof {
        assert(rv.skip(0) =~= rv);
    }
    while i < n
        invariant
            0 <= i <= n,
            out@ + csv_rows(rv.skip(i as int)) == exposition_to_csv_spec(content@),
        decreases n - i,
    {
        let ghost snap = out@;
        proof {
            assert(rv[i as int] == records@[i as int]@);
            assert(rv.skip(i as int)[0] == rv[i as int]);
            assert(rv.skip(i as int).skip(1) =~= rv.skip(i + 1));
        }
        let rec = &records[i];
        push_char(&mut out, '\n');
        out.append(rec.timestamp.as_str());
        push_char(&mut out, ',');
        out.append(rec.value.as_str());
        push_char(&mut out, ',');
        out.append(rec.name.as_str());
        proof {
            assert(out@ =~= snap + csv_row(rv[i as int]));
            assert(out@ + csv_rows(rv.skip(i + 1)) =~= snap + csv_rows(rv.skip(i as int)));
        }
        i += 1;
    }
    proof {
        assert(csv_rows(rv.skip(n as int)) =~= Seq::<char>::empty());
        assert(out@ =~= out@ + csv_rows(rv.skip(n as int)));
    }
    out
}

/// One decoded CSV record as an exposition line: the third field is the
/// metric name, the second the value (kept as it came), the first the
/// timestamp (truncated).  Records that are short or not numeric yield
/// nothing.
pub open spec fn csv_line(rec: Seq<Seq<char>>) -> Seq<char> {
    if rec.len() >= 3 && is_float_text(rec[0]) && is_float_text(rec[1]) {
        rec[2] + seq![' '] + rec[1] + seq![' '] + i64_dec_str(float_trunc(rec[0])) + seq!['\n']
    } else {
        Seq::<char>::empty()
    }
}

pub open spec fn csv_to_expo_spec(records: Seq<Seq<Seq<char>>>) -> Seq<char>
    decreases records.len(),
{
    if records.len() == 0 {
        Seq::<char>::empty()
    } else {
        csv_line(records[0]) + csv_to_expo_spec(records.skip(1))
    }
}

/// Decoded CSV records written as exposition text.
#[verifier::loop_isolation(false)]
pub fn csv_records_to_exposition(records: &Vec<Vec<String>>) -> (r: String)
    ensures
        r@ == csv_to_expo_spec(records.deep_view()),
{
    let ghost rv = records.deep_view();
    let mut out = String::new();
    let n = records.len();
    let mut i: usize = 0;
    proof {
        assert(rv.skip(0) =~= rv);
    }
    while i < n
        invariant
            0 <= i <= n,
            out@ + csv_to_expo_spec(rv.skip(i as int)) == csv_to_expo_spec(rv),
        decreases n - i,
    {
        let ghost snap = out@;
        proof {
            assert(rv[i as int] == records@[i as int].deep_view());
            assert(rv.skip(i as int)[0] == rv[i as int]);
            assert(rv.skip(i as int).skip(1) =~= rv.skip(i + 1));
        }
        let rec = &records[i];
        if rec.len() >= 3 {
            proof {
                assert(rv[i as int][0] == rec@[0]@);
                assert(rv[i as int][1] == rec@[1]@);
                assert(rv[i as int][2] == rec@[2]@);
            }
            let ts_chars = str_to_chars(rec[0].as_str());
            let val_chars = str_to_chars(rec[1].as_str());
            if is_float_chars(&ts_chars) && is_float_chars(&val_chars) {
                out.append(rec[2].as_str());
                push_char(&mut out, ' ');
                out.append(rec[1].as_str());
                push_char(&mut out, ' ');
                let t = trunc_float_chars(&ts_chars);
                let t_chars = i64_to_dec_chars(t);
                let t_s = chars_to_string(&t_chars);
                out.append(t_s.as_str());
                push_char(&mut out, '\n');
                proof {
                    assert(out@ =~= snap + csv_line(rv[i as int]));
                }
            } else {
                proof {
                    assert(csv_line(rv[i as int]) =~= Seq::<char>::empty());
                    assert(out@ =~= snap + csv_line(rv[i as int]));
                }
            }
        } else {
            proof {
                assert(csv_line(rv[i as int]) =~= Seq::<char>::empty());
                assert(out@ =~= snap + csv_line(rv[i as int]));
            }
        }
        proof {
            assert(out@ + csv_to_expo_spec(rv.skip(i + 1)) =~= snap + csv_to_expo_spec(
                rv.skip(i as int),
            ));
        }
        i += 1;
    }
    proof {
        assert(csv_to_expo_spec(rv.skip(n as int)) =~= Seq::<char>::empty());
        assert(out@ =~= out@ + csv_to_expo_spec(rv.skip(n as int)));
    }
    out
}

/// What the CSV decoder yields on this text: its records as fields, or
/// its error text.  A name only: the decoder's exact output takes pages
/// to state, but depends on the text alone.
pub uninterp spec fn csv_records_of(s: Seq<char>) -> Result<Seq<Seq<Seq<char>>>, Seq<char>>;

/// Relies on csv's `Reader`: decodes comma-separated records from the
/// text, the first line being a header that the record iterator does not
/// yield; the first decoding error ends the read.
#[verifier::external_body]
fn parse_csv_records(content: &str) -> (r: Result<Vec<Vec<String>>, String>)
    ensures
        r is Ok <==> csv_records_of(content@) is Ok,
        (r matches Ok(v) ==> csv_records_of(content@) matches Ok(m) && v.deep_view() == m),
        (r matches Err(e) ==> csv_records_of(content@) matches Err(m) && e@ == m),
{
    let mut reader = csv::Reader::from_reader(content.as_bytes());
    let mut out: Vec<Vec<String>> = Vec::new();
    for record in reader.records() {
        match record {
            Ok(rec) => out.push(rec.iter().map(|f| f.to_string()).collect()),
            Err(e) => return Err(e.to_string()),
        }
    }
    Ok(out)
}

/// CSV text to exposition text: the decoder reads the records, and every
/// record with three or more fields and numeric first and second fields
/// becomes one line.  A decoding error is returned as a CSV error.
pub fn convert_csv_to_prometheus(content: &str) -> (r: Result<String, VmCliError>)
    ensures
        r is Ok <==> csv_records_of(content@) is Ok,
        (r matches Ok(s) ==> csv_records_of(content@) matches Ok(m) && s@ == csv_to_expo_spec(m)),
        (r matches Err(e) ==> csv_records_of(content@) matches Err(m) && e == VmCliError::CsvError(
            e->CsvError_0,
        ) && e->CsvError_0@ == m),
{
    match parse_csv_records(content) {
        Ok(records) => Ok(csv_records_to_exposition(&records)),
        Err(e) => Err(VmCliError::CsvError(e)),
    }
}


/// Round trip at the text level: one well-formed record written out as
/// exposition text and read back is the same record, with its timestamp
/// truncated to an integer.
pub proof fn lemma_text_round_trip(r: RecordModel)
    requires
        round_trip_wf(r),
    ensures
        to_structured_spec(to_exposition_spec(seq![r])) == seq![
            RecordModel {
                name: r.name,
                labels: r.labels,
                value: r.value,
                timestamp: i64_dec_str(float_trunc(r.timestamp)),
            },
        ],
{
    lemma_exposition_round_trip(r);
    let line = exposition_line(r);
    let ts = float_trunc(r.timestamp);
    let tt = i64_dec_str(ts);
    crate::numtext::lemma_dec_str_no_space(ts);
    crate::numtext::lemma_float_text_no_space(r.value);
    let text = to_exposition_spec(seq![r]);
    assert(seq![r].skip(1) =~= Seq::<RecordModel>::empty());
    assert(to_exposition_spec(Seq::<RecordModel>::empty()) == Seq::<char>::empty());
    assert(text == exposition_line(seq![r][0]) + to_exposition_spec(seq![r].skip(1)));
    assert(text =~= line);
    // the text is one line: no inner newline, one at the end
    let x = line.drop_last();
    let b = label_block(r.labels);
    assert forall|k: int| 0 <= k < x.len() implies x[k] != '\n' by {
        let nl = r.name.len() as int;
        let bl = b.len() as int;
        let vl = r.value.len() as int;
        if k < nl {
            assert(x[k] == r.name[k]);
            assert(!is_space_char(x[k]));
        } else if k < nl + bl {
            if r.labels.len() > 0 {
                lemma_block_no_newline(r);
                assert(x[k] == b[k - nl]);
            }
        } else if k == nl + bl {
            assert(x[k] == ' ');
        } else if k < nl + bl + 1 + vl {
            assert(x[k] == r.value[k - nl - bl - 1]);
            assert(!is_space_char(x[k]));
        } else if k == nl + bl + 1 + vl {
            assert(x[k] == ' ');
        } else {
            assert(x[k] == tt[k - nl - bl - 2 - vl]);
            assert(!is_space_char(x[k]));
        }
        if x[k] == '\n' {
            assert(is_space_char(x[k]));
        }
    }
    assert(line[line.len() - 1] == '\n');
    assert forall|k: int| 0 <= k < x.len() implies line[k] != '\n' by {
        assert(line[k] == x[k]);
    }
    crate::strutil::lemma_first_pos_at(line, '\n', x.len() as int);
    assert(split_lines(line) == seq![crate::strutil::strip_cr(line.take(x.len() as int))]
        + split_lines(line.skip(x.len() as int + 1)));
    assert(line.take(x.len() as int) =~= x);
    assert(x[x.len() - 1] == tt[tt.len() - 1]);
    assert(!is_space_char(x[x.len() - 1]));
    assert(crate::strutil::strip_cr(x) =~= x);
    assert(line.skip(x.len() as int + 1) =~= Seq::<char>::empty());
    assert(split_lines(Seq::<char>::empty()) =~= Seq::<Seq<char>>::empty());
    assert(split_lines(line) =~= seq![x]);
    // the bare line parses as the full one: both trim to the same text
    assert(line[0] == r.name[0]);
    assert(line[line.len() - 2] == tt[tt.len() - 1]);
    lemma_trim_line(line);
    assert(trim_spec(line) =~= x);
    assert(crate::strutil::first_non_space_from(x, 0) == 0);
    assert(crate::strutil::last_non_space_before(x, x.len() as int) == x.len());
    assert(trim_spec(x) =~= x);
    assert(parse_line_spec(x) == parse_line_spec(line));
    // one parsed sample, so one record
    assert(parse_line_spec(x) == LineModel::Sample(
        SampleModel { name: r.name, labels: r.labels, value: r.value, timestamp: Some(tt) },
    ));
    assert(seq![x].skip(1) =~= Seq::<Seq<char>>::empty());
    assert(records_of_lines(Seq::<Seq<char>>::empty()) == Seq::<RecordModel>::empty());
    assert(seq![x][0] == x);
    assert(records_of_lines(seq![x]) =~= seq![
        RecordModel {
            name: r.name,
            labels: r.labels,
            value: r.value,
            timestamp: tt,
        },
    ]);
}

proof fn lemma_block_no_newline(r: RecordModel)
    requires
        round_trip_wf(r),
        r.labels.len() > 0,
    ensures
        forall|k: int|
            0 <= k < label_block(r.labels).len() ==> #[trigger] label_block(r.labels)[k] != '\n',
{
    let b = label_block(r.labels);
    let j = labels_joined(r.labels);
    lemma_joined_no_newline(r.labels);
    assert forall|k: int| 0 <= k < b.len() implies #[trigger] b[k] != '\n' by {
        if k == 0 {
            assert(b[0] == '{');
        } else if k == b.len() - 1 {
            assert(b[k] == '}');
        } else {
            assert(b[k] == j[k - 1]);
        }
    }
}

proof fn lemma_joined_no_newline(ls: Seq<(Seq<char>, Seq<char>)>)
    requires
        forall|i: int| 0 <= i < ls.len() ==> label_pair_wf(#[trigger] ls[i]),
    ensures
        forall|k: int|
            0 <= k < labels_joined(ls).len() ==> #[trigger] labels_joined(ls)[k] != '\n',
    decreases ls.len(),
{
    if ls.len() > 0 {
        let j = labels_joined(ls);
        let t0 = pair_text(ls[0]);
        lemma_pair_text_chars(ls[0]);
        let tail = ls.skip(1);
        assert forall|i: int| 0 <= i < tail.len() implies label_pair_wf(#[trigger] tail[i]) by {
            assert(tail[i] == ls[i + 1]);
        }
        lemma_joined_no_newline(tail);
        if ls.len() == 1 {
            assert(j =~= t0);
            assert forall|k: int| 0 <= k < j.len() implies #[trigger] j[k] != '\n' by {
                assert(j[k] == t0[k]);
            }
        } else {
            assert(rest_join(tail) == seq![','] + pair_text(tail[0]) + rest_join(tail.skip(1)));
            assert(j =~= t0 + seq![','] + labels_joined(tail));
            assert forall|k: int| 0 <= k < j.len() implies #[trigger] j[k] != '\n' by {
                let c0 = t0.len() as int;
                if k < c0 {
                    assert(j[k] == t0[k]);
                } else if k == c0 {
                    assert(j[k] == ',');
                } else {
                    assert(j[k] == labels_joined(tail)[k - c0 - 1]);
                }
            }
        }
    }
}


} // verus!
