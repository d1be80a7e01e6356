//! The journal as text: one record on each line.

use crate::store::{Snap, Store};
use crate::text::{lines_of, nonblank_lines, pieces, texts, trimmed};
use vstd::prelude::*;

verus! {

/// The text of a journal with these records.
pub open spec fn journal_text(records: Seq<Seq<char>>) -> Seq<char>
    decreases records.len(),
{
    if records.len() == 0 {
        Seq::empty()
    } else {
        journal_text(records.drop_last()) + records.last().push('\n')
    }
}

/// Whether `s` can be a record: a line that is not blank, without white space
/// around it.
pub open spec fn is_record(s: Seq<char>) -> bool {
    s.len() > 0 && !s.contains('\n') && trimmed(s) == s
}

/// Whether a journal ends where a line ends.
pub open spec fn ends_line(raw: Seq<char>) -> bool {
    raw.len() == 0 || raw.last() == '\n'
}

/// The checkpoints among the records that were read.
pub open spec fn sound_records(parsed: Seq<Result<Snap, String>>) -> Seq<Snap> {
    parsed.filter(|r: Result<Snap, String>| r is Ok).map_values(
        |r: Result<Snap, String>| r->Ok_0,
    )
}

/// What is said of the records that could not be read.
pub open spec fn warnings(parsed: Seq<Result<Snap, String>>) -> Seq<Seq<char>> {
    parsed.filter(|r: Result<Snap, String>| r is Err).map_values(
        |r: Result<Snap, String>| "timefork: skipping corrupt journal line: "@ + r->Err_0@,
    )
}

impl Store {
    /// Takes the checkpoints from what was read of a journal: `parsed` holds for
    /// each record the checkpoint, or the reason why it is corrupt. A corrupt record
    /// is skipped with a warning, and takes nothing else with it.
    pub fn take_records(parsed: Vec<Result<Snap, String>>) -> (r: (Vec<Snap>, Vec<String>))
        ensures
            r.0@ == sound_records(parsed@),
            texts(r.1@) == warnings(parsed@),
    {
        let ghost all = parsed@;
        let ghost good = |r: Result<Snap, String>| r is Ok;
        let ghost bad = |r: Result<Snap, String>| r is Err;
        let mut snaps: Vec<Snap> = Vec::new();
        let mut lines: Vec<String> = Vec::new();
        proof {
            reveal_with_fuel(Seq::<_>::filter, 1);
            assert(sound_records(all.take(0)) =~= snaps@);
            assert(warnings(all.take(0)) =~= texts(lines@));
        }
        for record in it: parsed
            invariant
                it.seq() == all,
                good == (|r: Result<Snap, String>| r is Ok),
                bad == (|r: Result<Snap, String>| r is Err),
                snaps@ == sound_records(all.take(it.index())),
                texts(lines@) == warnings(all.take(it.index())),
        {
            let ghost i = it.index();
            let ghost said = texts(lines@);
            let ghost had = snaps@;
            proof {
                assert(all.take(i + 1) =~= all.take(i).push(record));
                all.take(i).lemma_filter_push(record, good);
                all.take(i).lemma_filter_push(record, bad);
            }
            match record {
                Ok(s) => {
                    snaps.push(s);
                    assert(sound_records(all.take(i + 1)) =~= had.push(s));
                },
                Err(why) => {
                    let mut line = "timefork: skipping corrupt journal line: ".to_owned();
                    line.append(why.as_str());
                    lines.push(line);
                    assert(texts(lines@) =~= said.push(line@));
                    assert(warnings(all.take(i + 1)) =~= said.push(line@));
                },
            }
        }
        assert(all.take(all.len() as int) =~= all);
        (snaps, lines)
    }

    /// The records of a journal: its lines that are not blank, trimmed. Whether a
    /// record is sound is for the reader of the record to say.
    pub fn read_journal(raw: &str) -> (r: Vec<String>)
        ensures
            texts(r@) == nonblank_lines(raw@),
    {
        lines_of(raw)
    }

    /// What a record adds to the journal.
    pub fn append_journal(record: &str) -> (r: String)
        ensures
            r@ == record@.push('\n'),
    {
        let mut r = record.to_owned();
        r.push('\n');
        r
    }

    /// The text of a journal with these records.
    pub fn rewrite_journal(records: &Vec<String>) -> (r: String)
        ensures
            r@ == journal_text(texts(records@)),
    {
        let ghost all = texts(records@);
        let mut r = String::new();
        let mut i: usize = 0;
        assert(all.take(0) =~= Seq::empty());
        while i < records.len()
            invariant
                i <= records@.len(),
                all == texts(records@),
                r@ == journal_text(all.take(i as int)),
            decreases records@.len() - i,
        {
            let ghost before = r@;
            r.append(records[i].as_str());
            r.push('\n');
            assert(all.take(i + 1).drop_last() =~= all.take(i as int));
            assert(r@ =~= before + all[i as int].push('\n'));
            i += 1;
        }
        assert(all.take(i as int) =~= all);
        r
    }
}

pub proof fn lemma_pieces_after(a: Seq<char>, b: Seq<char>)
    requires
        ends_line(a),
    ensures
        pieces(a, '\n').len() > 0,
        pieces(a, '\n').last().len() == 0,
        pieces(b, '\n').len() > 0,
        pieces(a + b, '\n') == pieces(a, '\n').drop_last() + pieces(b, '\n'),
    decreases b.len(),
{
    if b.len() == 0 {
        assert(a + b =~= a);
        assert(pieces(a, '\n') =~= pieces(a, '\n').drop_last() + seq![Seq::<char>::empty()]);
    } else {
        lemma_pieces_after(a, b.drop_last());
        assert((a + b).drop_last() =~= a + b.drop_last());
        let before = pieces(a, '\n').drop_last();
        let p = pieces(b.drop_last(), '\n');
        if b.last() == '\n' {
            assert(pieces(a + b, '\n') =~= before + pieces(b, '\n'));
        } else {
            assert((before + p).drop_last() =~= before + p.drop_last());
            assert(pieces(a + b, '\n') =~= before + pieces(b, '\n'));
        }
    }
}

pub proof fn lemma_one_piece(s: Seq<char>)
    requires
        !s.contains('\n'),
    ensures
        pieces(s, '\n') == seq![s],
    decreases s.len(),
{
    if s.len() > 0 {
        assert forall|i: int| 0 <= i < s.len() - 1 implies s.drop_last()[i] != '\n' by {
            assert(s.contains(s[i]));
        }
        assert(!s.drop_last().contains('\n'));
        lemma_one_piece(s.drop_last());
        assert(s.contains(s.last()));
        assert(s.drop_last().push(s.last()) =~= s);
        assert(pieces(s, '\n') =~= seq![s]);
    } else {
        assert(s =~= Seq::empty());
    }
}

/// Appending a record to a journal adds that record to what is read, and
/// changes nothing before it.
pub proof fn append_adds_one(raw: Seq<char>, record: Seq<char>)
    requires
        ends_line(raw),
        is_record(record),
    ensures
        ends_line(raw + record.push('\n')),
        nonblank_lines(raw + record.push('\n')) == nonblank_lines(raw).push(record),
{
    let tr = |l: Seq<char>| trimmed(l);
    let full = |l: Seq<char>| l.len() > 0;
    let none = Seq::<char>::empty();
    let line = record.push('\n');
    let before = pieces(raw, '\n').drop_last();
    lemma_pieces_after(raw, line);
    lemma_one_piece(record);
    assert(line.drop_last() =~= record);
    assert(pieces(line, '\n') =~= seq![record, none]);
    assert(pieces(raw, '\n') =~= before + seq![none]);
    let m = before.map_values(tr);
    assert((before + seq![none]).map_values(tr) =~= m + seq![none]);
    assert((before + seq![record, none]).map_values(tr) =~= m + seq![record, none]);
    Seq::filter_distributes_over_add(m, seq![none], full);
    Seq::filter_distributes_over_add(m, seq![record, none], full);
    assert(seq![none].filter(full) =~= Seq::empty()) by {
        reveal_with_fuel(Seq::<_>::filter, 2);
        assert(seq![none].drop_last() =~= Seq::empty());
    }
    assert(seq![record, none].filter(full) =~= seq![record]) by {
        reveal_with_fuel(Seq::<_>::filter, 3);
        assert(seq![record, none].drop_last() =~= seq![record]);
        assert(seq![record].drop_last() =~= Seq::empty());
    }
}

/// A journal that is written reads back as the records it was written from.
pub proof fn journal_reads_back(records: Seq<Seq<char>>)
    requires
        forall|i: int| 0 <= i < records.len() ==> is_record(#[trigger] records[i]),
    ensures
        nonblank_lines(journal_text(records)) == records,
        ends_line(journal_text(records)),
    decreases records.len(),
{
    if records.len() == 0 {
        let full = |l: Seq<char>| l.len() > 0;
        let none = Seq::<char>::empty();
        assert(pieces(none, '\n').map_values(|l: Seq<char>| trimmed(l)) =~= seq![none]);
        assert(seq![none].filter(full) =~= Seq::empty()) by {
            reveal_with_fuel(Seq::<_>::filter, 2);
            assert(seq![none].drop_last() =~= Seq::empty());
        }
        assert(records =~= Seq::empty());
    } else {
        let front = records.drop_last();
        assert forall|i: int| 0 <= i < front.len() implies is_record(#[trigger] front[i]) by {
            assert(front[i] == records[i]);
        }
        journal_reads_back(front);
        append_adds_one(journal_text(front), records.last());
        assert(front.push(records.last()) =~= records);
    }
}

/// How checkpoints are written as records and read from them, where what is written
/// is a record and reads back.
pub open spec fn is_codec(
    write: spec_fn(Snap) -> Seq<char>,
    read: spec_fn(Seq<char>) -> Result<Snap, String>,
) -> bool {
    forall|s: Snap| is_record(#[trigger] write(s)) && read(write(s)) == Ok::<Snap, String>(s)
}

/// The checkpoints that are read from a journal.
pub open spec fn snaps_in(
    raw: Seq<char>,
    read: spec_fn(Seq<char>) -> Result<Snap, String>,
) -> Seq<Snap> {
    sound_records(nonblank_lines(raw).map_values(read))
}

proof fn lemma_all_sound(parsed: Seq<Result<Snap, String>>, snaps: Seq<Snap>)
    requires
        parsed == snaps.map_values(|s: Snap| Ok::<Snap, String>(s)),
    ensures
        sound_records(parsed) == snaps,
    decreases snaps.len(),
{
    reveal_with_fuel(Seq::<_>::filter, 1);
    if snaps.len() > 0 {
        let front = snaps.drop_last();
        assert(parsed.drop_last() =~= front.map_values(|s: Snap| Ok::<Snap, String>(s)));
        lemma_all_sound(parsed.drop_last(), front);
        assert(parsed.last() == Ok::<Snap, String>(snaps.last()));
        assert(sound_records(parsed) =~= front.push(snaps.last()));
    }
    assert(sound_records(parsed) =~= snaps);
}

/// A journal that is written gives back the checkpoints that it was written from,
/// and nothing else, where a record gives back its checkpoint.
pub proof fn journal_gives_back_checkpoints(
    snaps: Seq<Snap>,
    write: spec_fn(Snap) -> Seq<char>,
    read: spec_fn(Seq<char>) -> Result<Snap, String>,
)
    requires
        is_codec(write, read),
    ensures
        snaps_in(journal_text(snaps.map_values(write)), read) == snaps,
{
    let records = snaps.map_values(write);
    assert forall|i: int| 0 <= i < records.len() implies is_record(#[trigger] records[i]) by {
        assert(records[i] == write(snaps[i]));
    }
    journal_reads_back(records);
    let parsed = records.map_values(read);
    assert(parsed =~= snaps.map_values(|s: Snap| Ok::<Snap, String>(s)));
    lemma_all_sound(parsed, snaps);
}

/// Appending a checkpoint to a journal adds it to the checkpoints that are read, and
/// changes none before it, where a record gives back its checkpoint.
pub proof fn append_adds_the_checkpoint(
    raw: Seq<char>,
    s: Snap,
    write: spec_fn(Snap) -> Seq<char>,
    read: spec_fn(Seq<char>) -> Result<Snap, String>,
)
    requires
        is_codec(write, read),
        ends_line(raw),
    ensures
        snaps_in(raw + write(s).push('\n'), read) == snaps_in(raw, read).push(s),
{
    append_adds_one(raw, write(s));
    let before = nonblank_lines(raw).map_values(read);
    let one = Ok::<Snap, String>(s);
    assert(nonblank_lines(raw).push(write(s)).map_values(read) =~= before.push(one));
    before.lemma_filter_push(one, |r: Result<Snap, String>| r is Ok);
    assert(sound_records(before.push(one)) =~= sound_records(before).push(s));
}

/// A journal has one line for each record, in order, and ends where a line ends.
pub proof fn journal_has_a_line_for_each_record(records: Seq<Seq<char>>)
    requires
        forall|i: int| 0 <= i < records.len() ==> !(#[trigger] records[i]).contains('\n'),
    ensures
        pieces(journal_text(records), '\n') == records.push(Seq::empty()),
    decreases records.len(),
{
    let none = Seq::<char>::empty();
    if records.len() == 0 {
        assert(pieces(none, '\n') =~= records.push(none));
    } else {
        let front = records.drop_last();
        let r = records.last();
        assert forall|i: int| 0 <= i < front.len() implies !(#[trigger] front[i]).contains('\n') by {
            assert(front[i] == records[i]);
        }
        assert(!records[records.len() - 1].contains('\n'));
        journal_has_a_line_for_each_record(front);
        lemma_ends_line(front);
        lemma_pieces_after(journal_text(front), r.push('\n'));
        lemma_one_piece(r);
        assert(r.push('\n').drop_last() =~= r);
        assert(pieces(r.push('\n'), '\n') =~= seq![r, none]);
        assert(front.push(none).drop_last() =~= front);
        assert(front + seq![r, none] =~= records.push(none));
    }
}

proof fn lemma_ends_line(records: Seq<Seq<char>>)
    ensures
        ends_line(journal_text(records)),
{
}

/// Of what was read of a journal, each checkpoint is taken and each corrupt record is
/// warned of with its reason, in order.
pub proof fn records_are_taken_one_by_one(
    parsed: Seq<Result<Snap, String>>,
    s: Snap,
    why: String,
)
    ensures
        sound_records(Seq::empty()).len() == 0,
        warnings(Seq::empty()).len() == 0,
        sound_records(parsed.push(Ok(s))) == sound_records(parsed).push(s),
        sound_records(parsed.push(Err(why))) == sound_records(parsed),
        warnings(parsed.push(Ok(s))) == warnings(parsed),
        warnings(parsed.push(Err(why))) == warnings(parsed).push(
            "timefork: skipping corrupt journal line: "@ + why@,
        ),
{
    let good = |r: Result<Snap, String>| r is Ok;
    let bad = |r: Result<Snap, String>| r is Err;
    let none = Seq::<Result<Snap, String>>::empty();
    reveal_with_fuel(Seq::<_>::filter, 1);
    assert(none.filter(good) =~= none);
    assert(none.filter(bad) =~= none);
    parsed.lemma_filter_push(Ok(s), good);
    parsed.lemma_filter_push(Ok(s), bad);
    parsed.lemma_filter_push(Err(why), good);
    parsed.lemma_filter_push(Err(why), bad);
    assert(sound_records(parsed.push(Ok(s))) =~= sound_records(parsed).push(s));
    assert(warnings(parsed.push(Err(why))) =~= warnings(parsed).push(
        "timefork: skipping corrupt journal line: "@ + why@,
    ));
}

/// One more record is one more line at the end of a journal, and a journal of no records
/// is empty.
pub proof fn record_is_a_line_at_the_end(records: Seq<Seq<char>>, r: Seq<char>)
    ensures
        journal_text(Seq::empty()).len() == 0,
        journal_text(records.push(r)) == journal_text(records) + r + seq!['\n'],
{
    assert(records.push(r).drop_last() =~= records);
    let before = journal_text(records);
    assert(before + r.push('\n') =~= before + r + seq!['\n']);
}

} // verus!
