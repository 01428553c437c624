//! Where the records go: the target path, resolved from an optional
//! configured value, and an in-memory append-only log of records.
use vstd::prelude::*;
use crate::encode::{
    is_delimiter,
    is_hyphenated_uuid,
    lemma_uuid_is_delimiter,
    has_line_break,
    single_line_form,
    block_form,
    record_form,
    render_record,
    render_block,
};
use crate::outcome::{error_name, conclude, FAILURE_STATUS};

verus! {

/// The target used when no path is configured, relative to the working
/// directory.
pub open spec fn default_target() -> Seq<char> {
    "github_output"@
}

/// The configured path where there is one, else the default.
pub fn resolve_target(configured: Option<String>) -> (r: String)
    ensures
        r@ == match configured {
            Some(p) => p@,
            None => default_target(),
        },
{
    match configured {
        Some(p) => p,
        None => String::from_str("github_output"),
    }
}

/// One record of a log: its name, its value, the delimiter that closes it
/// if it is a block, and whether the block form was asked for whatever the
/// value holds.
pub struct RecordModel {
    pub name: Seq<char>,
    pub value: Seq<char>,
    pub delimiter: Seq<char>,
    pub forced_block: bool,
}

pub open spec fn record_text(r: RecordModel) -> Seq<char> {
    if r.forced_block {
        block_form(r.name, r.value, r.delimiter)
    } else {
        record_form(r.name, r.value, r.delimiter)
    }
}

/// The text of a sequence of records, one after the other.
pub open spec fn log_text(records: Seq<RecordModel>) -> Seq<char>
    decreases records.len(),
{
    if records.len() == 0 {
        Seq::empty()
    } else {
        log_text(records.drop_last()) + record_text(records.last())
    }
}

/// Two records appended one after the other both stand in the text of the
/// log, after everything that was there before and in the order of the
/// calls; nothing written earlier changes.
pub proof fn lemma_log_keeps_call_order(
    before: Seq<RecordModel>,
    first: RecordModel,
    second: RecordModel,
)
    ensures
        log_text(before.push(first).push(second)) == log_text(before) + record_text(first)
            + record_text(second),
{
    let once = before.push(first);
    let twice = once.push(second);
    assert(twice.drop_last() =~= once);
    assert(once.drop_last() =~= before);
    assert(log_text(once) == log_text(before) + record_text(first));
    assert(log_text(twice) == log_text(once) + record_text(second));
    assert(log_text(before) + record_text(first) + record_text(second) =~= log_text(twice));
}

/// An append-only log of records held in memory. Its text is always the
/// records that were emitted, in the order of the calls.
pub struct OutputLog {
    text: String,
    records: Ghost<Seq<RecordModel>>,
}

impl View for OutputLog {
    type V = Seq<char>;

    closed spec fn view(&self) -> Seq<char> {
        self.text@
    }
}

impl OutputLog {
    /// The records emitted so far, oldest first.
    pub closed spec fn records(&self) -> Seq<RecordModel> {
        self.records@
    }

    /// Every character of the text belongs to exactly one record, and every
    /// record is closed by a proper delimiter.
    pub open spec fn wf(&self) -> bool {
        &&& self@ == log_text(self.records())
        &&& forall|i: int|
            0 <= i < self.records().len() ==> is_delimiter(#[trigger] self.records()[i].delimiter)
    }

    pub fn new() -> (r: OutputLog)
        ensures
            r.wf(),
            r.records() == Seq::<RecordModel>::empty(),
            r@ == Seq::<char>::empty(),
    {
        OutputLog { text: String::new(), records: Ghost(Seq::empty()) }
    }

    /// The text written so far.
    pub fn as_str(&self) -> (r: &str)
        ensures
            r@ == self@,
    {
        self.text.as_str()
    }

    fn push_record(&mut self, text: &str, Ghost(rec): Ghost<RecordModel>)
        requires
            old(self).wf(),
            is_delimiter(rec.delimiter),
            text@ == record_text(rec),
        ensures
            final(self).wf(),
            final(self).records() == old(self).records().push(rec),
            final(self)@ == old(self)@ + text@,
    {
        self.text.append(text);
        proof {
            let rs = self.records@.push(rec);
            assert(rs.drop_last() =~= self.records@);
            self.records@ = rs;
        }
    }

    /// Appends the record of `name` and `value`, in the block form exactly
    /// when the value holds a line break.
    pub fn emit(&mut self, name: &str, value: &str)
        requires
            old(self).wf(),
        ensures
            final(self).wf(),
            exists|d: Seq<char>|
                {
                    &&& is_hyphenated_uuid(d)
                    &&& final(self).records() == old(self).records().push(
                        RecordModel { name: name@, value: value@, delimiter: d, forced_block: false },
                    )
                    &&& final(self)@ == old(self)@ + #[trigger] record_form(name@, value@, d)
                },
            !has_line_break(value@) ==> final(self)@ == old(self)@ + single_line_form(name@, value@),
    {
        let r = render_record(name, value);
        let ghost d = choose|d: Seq<char>|
            is_hyphenated_uuid(d) && r@ == #[trigger] record_form(name@, value@, d);
        proof {
            lemma_uuid_is_delimiter(d);
        }
        self.push_record(
            r.as_str(),
            Ghost(RecordModel { name: name@, value: value@, delimiter: d, forced_block: false }),
        );
    }

    /// Appends the record of `name` and `value` in the block form, whatever
    /// the value holds.
    pub fn emit_block(&mut self, name: &str, value: &str)
        requires
            old(self).wf(),
        ensures
            final(self).wf(),
            exists|d: Seq<char>|
                {
                    &&& is_hyphenated_uuid(d)
                    &&& final(self).records() == old(self).records().push(
                        RecordModel { name: name@, value: value@, delimiter: d, forced_block: true },
                    )
                    &&& final(self)@ == old(self)@ + #[trigger] block_form(name@, value@, d)
                },
    {
        let r = render_block(name, value);
        let ghost d = choose|d: Seq<char>|
            is_hyphenated_uuid(d) && r@ == #[trigger] block_form(name@, value@, d);
        proof {
            lemma_uuid_is_delimiter(d);
        }
        self.push_record(
            r.as_str(),
            Ghost(RecordModel { name: name@, value: value@, delimiter: d, forced_block: true }),
        );
    }

    /// Ends the run: on failure, appends the record of `error` and the
    /// description, always in the block form, and returns a non-zero status;
    /// on success, appends nothing and returns 0.
    pub fn finish(&mut self, outcome: &Result<(), String>) -> (status: i32)
        requires
            old(self).wf(),
        ensures
            final(self).wf(),
            outcome is Ok ==> status == 0 && final(self).records() == old(self).records()
                && final(self)@ == old(self)@,
            outcome is Err ==> status == FAILURE_STATUS && exists|d: Seq<char>|
                {
                    &&& is_hyphenated_uuid(d)
                    &&& final(self).records() == old(self).records().push(
                        RecordModel {
                            name: error_name(),
                            value: outcome->Err_0@,
                            delimiter: d,
                            forced_block: true,
                        },
                    )
                    &&& final(self)@ == old(self)@ + #[trigger] block_form(
                        error_name(),
                        outcome->Err_0@,
                        d,
                    )
                },
    {
        let c = conclude(outcome);
        match c.error_record {
            Some(r) => {
                let ghost e = outcome->Err_0@;
                let ghost d = choose|d: Seq<char>|
                    is_hyphenated_uuid(d) && r@ == #[trigger] block_form(error_name(), e, d);
                proof {
                    lemma_uuid_is_delimiter(d);
                }
                self.push_record(
                    r.as_str(),
                    Ghost(RecordModel { name: error_name(), value: e, delimiter: d, forced_block: true }),
                );
            },
            None => {},
        }
        c.exit_status
    }
}

} // verus!
