use crate::classify::{mark_document, spec_mark_count, spec_mark_doc};
use crate::document::{doc_get, doc_set, SectionView};
use crate::inidoc::{ini_document_of, ini_text_of, parse_ini_text, render_ini_text};
use crate::numtext::{
    dec_digits, format_milli, read_angle, spec_format_milli, spec_read_angle, u64_to_string,
    AngleReading, SpecReading,
};
use crate::sun::{
    spec_sun_angle_milli, spec_wrap_diff, sun_angle_milli, wrap_diff_tenth_milli, TimeOfDay,
};
use vstd::prelude::*;
use vstd::string::StringExecFns;

verus! {

/// Why one reconciliation path stopped; each maps to the message the
/// operator sees for it.
#[derive(Clone, Copy, Debug, PartialEq, Eq, Structural)]
pub enum ReconcileError {
    /// The vehicle entry list does not parse as a sectioned document.
    EntryListUnparseable,
    /// The server configuration does not parse as a sectioned document.
    ServerConfigUnparseable,
    /// The server configuration has no sun angle entry to compare with.
    SunAngleMissing,
    /// The stored sun angle is not a floating-point numeral.
    SunAngleNotNumeric,
}

impl ReconcileError {
    pub open spec fn spec_message(self) -> Seq<char> {
        match self {
            ReconcileError::EntryListUnparseable => "Failed to parse entry list to mark traffic slots"@,
            ReconcileError::ServerConfigUnparseable => "Failed to parse server config to update time"@,
            ReconcileError::SunAngleMissing => "Server config does not have a configured sun angle."@,
            ReconcileError::SunAngleNotNumeric => "Failed to parse sun angle from server config"@,
        }
    }

    /// The message reported for this failure.
    pub fn message(&self) -> (r: String)
        ensures
            r@ == self.spec_message(),
    {
        match self {
            ReconcileError::EntryListUnparseable => String::from_str(
                "Failed to parse entry list to mark traffic slots",
            ),
            ReconcileError::ServerConfigUnparseable => String::from_str(
                "Failed to parse server config to update time",
            ),
            ReconcileError::SunAngleMissing => String::from_str(
                "Server config does not have a configured sun angle.",
            ),
            ReconcileError::SunAngleNotNumeric => String::from_str(
                "Failed to parse sun angle from server config",
            ),
        }
    }
}

/// The message reported when `n` entries were marked.
pub open spec fn spec_marked_message(n: nat) -> Seq<char> {
    dec_digits(n as int) + " car(s) were marked as traffic-capable."@
}

/// The message reported when no entry was eligible.
pub open spec fn spec_no_eligible_message() -> Seq<char> {
    "No cars found that were eligible to be marked as traffic. Entry list was not modified."@
}

/// The message reported when the stored angle already matches.
pub open spec fn spec_time_matches_message() -> Seq<char> {
    "Configured time of day matches the configured time. Server config was not modified."@
}

/// The message reported when the stored angle was rewritten.
pub open spec fn spec_time_updated_message() -> Seq<char> {
    "Time of day was updated in server config."@
}

/// What the traffic-marking pass decided: the rewritten text when anything
/// changed, how many entries were marked, and the operator message.
#[derive(Debug)]
pub struct TrafficOutcome {
    pub new_text: Option<String>,
    pub num_marked: usize,
    pub message: String,
}

/// The traffic-marking pass over the entry-list text: parses it, marks every
/// eligible vehicle entry, and yields the rewritten text exactly when at
/// least one entry changed.
pub fn mark_traffic_text(input: &str) -> (r: Result<TrafficOutcome, ReconcileError>)
    ensures
        r is Ok <==> ini_document_of(input@) is Some,
        r is Err ==> r->Err_0 == ReconcileError::EntryListUnparseable,
        r is Ok ==> ({
            let d = ini_document_of(input@)->0;
            let o = r->Ok_0;
            &&& o.num_marked == spec_mark_count(d)
            &&& (o.new_text is Some <==> spec_mark_count(d) > 0)
            &&& (o.new_text is Some ==> o.new_text->0@ == ini_text_of(spec_mark_doc(d)))
            &&& o.message@ == (if spec_mark_count(d) > 0 {
                spec_marked_message(spec_mark_count(d))
            } else {
                spec_no_eligible_message()
            })
        }),
{
    let doc = match parse_ini_text(input) {
        Some(d) => d,
        None => {
            return Err(ReconcileError::EntryListUnparseable);
        },
    };
    let (marked, count) = mark_document(doc);
    if count > 0 {
        let text = render_ini_text(&marked);
        let mut message = u64_to_string(count as u64);
        message.append(" car(s) were marked as traffic-capable.");
        Ok(TrafficOutcome { new_text: Some(text), num_marked: count, message })
    } else {
        Ok(
            TrafficOutcome {
                new_text: None,
                num_marked: count,
                message: String::from_str(
                    "No cars found that were eligible to be marked as traffic. Entry list was not modified.",
                ),
            },
        )
    }
}

/// What the time-sync pass decided: the rewritten text when the stored angle
/// was off, and the operator message.
#[derive(Debug)]
pub struct TimeSyncOutcome {
    pub new_text: Option<String>,
    pub message: String,
}

/// The outcome rewrites the document: the sun angle is set to the target,
/// written with three decimals, and the updated message is reported.
pub open spec fn spec_rewrites_to(o: TimeSyncOutcome, d: Seq<SectionView>, target: int) -> bool {
    &&& o.new_text is Some
    &&& o.new_text->0@ == ini_text_of(
        doc_set(d, "SERVER"@, "SUN_ANGLE"@, spec_format_milli(target)),
    )
    &&& o.message@ == spec_time_updated_message()
}

/// The time-sync pass over the server-config text: reads the stored sun
/// angle as a floating value, compares it with the angle for the configured
/// time of day at ten-thousandths of a degree, and rewrites it with three
/// decimals exactly when they differ by at least five hundredths of a
/// degree, wraparound-aware. A stored value beyond the reader's fixed-point
/// model (a huge magnitude, `inf`, `nan`) counts as differing and is
/// rewritten, as the original's floating comparison had it.
pub fn update_time_text(input: &str, time: &TimeOfDay) -> (r: Result<
    TimeSyncOutcome,
    ReconcileError,
>)
    requires
        time.wf(),
    ensures
        ini_document_of(input@) is None <==> (r is Err && r->Err_0
            == ReconcileError::ServerConfigUnparseable),
        ini_document_of(input@) is Some ==> ({
            let d = ini_document_of(input@)->0;
            let stored = doc_get(d, "SERVER"@, "SUN_ANGLE"@);
            let target = spec_sun_angle_milli(time.hour as int, time.minute as int);
            &&& (stored is None <==> (r is Err && r->Err_0 == ReconcileError::SunAngleMissing))
            &&& ((stored is Some && spec_read_angle(stored->0) is None) <==> (r is Err && r->Err_0
                == ReconcileError::SunAngleNotNumeric))
            &&& (stored is Some && spec_read_angle(stored->0) is Some) ==> ({
                &&& r is Ok
                &&& (spec_read_angle(stored->0)->0 is OutOfRange ==> spec_rewrites_to(
                    r->Ok_0,
                    d,
                    target,
                ))
                &&& (spec_read_angle(stored->0)->0 matches SpecReading::Finite(old_tenth) ==> ({
                    let diff = spec_wrap_diff(target * 10, old_tenth);
                    &&& ((-500 < diff < 500) ==> r->Ok_0.new_text is None && r->Ok_0.message@
                        == spec_time_matches_message())
                    &&& (!(-500 < diff < 500) ==> spec_rewrites_to(r->Ok_0, d, target))
                }))
            })
        }),
{
    let mut doc = match parse_ini_text(input) {
        Some(d) => d,
        None => {
            return Err(ReconcileError::ServerConfigUnparseable);
        },
    };
    let reading: AngleReading = {
        match doc.get_value("SERVER", "SUN_ANGLE") {
            None => {
                return Err(ReconcileError::SunAngleMissing);
            },
            Some(stored) => {
                match read_angle(stored.as_str()) {
                    None => {
                        return Err(ReconcileError::SunAngleNotNumeric);
                    },
                    Some(v) => v,
                }
            },
        }
    };
    let target = sun_angle_milli(time);
    let needs_write: bool = match reading {
        AngleReading::OutOfRange => true,
        AngleReading::Finite(old_tenth) => {
            let diff = wrap_diff_tenth_milli(target * 10, old_tenth);
            let mag: i64 = if diff < 0 {
                -diff
            } else {
                diff
            };
            mag >= 500
        },
    };
    if !needs_write {
        Ok(
            TimeSyncOutcome {
                new_text: None,
                message: String::from_str(
                    "Configured time of day matches the configured time. Server config was not modified.",
                ),
            },
        )
    } else {
        doc.set_value("SERVER", "SUN_ANGLE", format_milli(target));
        let text = render_ini_text(&doc);
        Ok(
            TimeSyncOutcome {
                new_text: Some(text),
                message: String::from_str("Time of day was updated in server config."),
            },
        )
    }
}

/// Joining one more message onto an aggregate: empty messages are skipped,
/// and a blank line separates messages already joined.
pub open spec fn spec_join_step(acc: Seq<char>, msg: Seq<char>) -> Seq<char> {
    if msg.len() == 0 {
        acc
    } else if acc.len() == 0 {
        msg
    } else {
        acc + "\n\n"@ + msg
    }
}

/// The non-empty messages joined in order, blank lines between them.
pub open spec fn spec_join_all(msgs: Seq<Seq<char>>) -> Seq<char>
    decreases msgs.len(),
{
    if msgs.len() == 0 {
        Seq::empty()
    } else {
        spec_join_step(spec_join_all(msgs.drop_last()), msgs.last())
    }
}

/// The run summary: the joined path messages, or the fixed note that nothing
/// was configured to run.
pub open spec fn spec_summary(msgs: Seq<Seq<char>>) -> Seq<char> {
    if spec_join_all(msgs).len() == 0 {
        "There are no configured actions to perform."@
    } else {
        spec_join_all(msgs)
    }
}

/// Aggregates the paths' outcome messages into the run summary the operator
/// sees.
#[verifier::loop_isolation(false)]
pub fn summarize_messages(msgs: &Vec<String>) -> (r: String)
    ensures
        r@ == spec_summary(msgs.deep_view()),
{
    let mut acc = String::new();
    let n = msgs.len();
    let mut i: usize = 0;
    while i < n
        invariant
            i <= n,
            acc@ == spec_join_all(msgs.deep_view().take(i as int)),
        decreases n - i,
    {
        proof {
            assert(msgs.deep_view().take(i + 1).drop_last() =~= msgs.deep_view().take(i as int));
            assert(msgs.deep_view().take(i + 1).last() == msgs@[i as int]@);
        }
        let m = &msgs[i];
        if !m.as_str().is_empty() {
            if acc.as_str().is_empty() {
                acc = m.clone();
            } else {
                acc.append("\n\n");
                acc.append(m.as_str());
            }
        }
        i += 1;
    }
    proof {
        assert(msgs.deep_view().take(n as int) =~= msgs.deep_view());
    }
    if acc.as_str().is_empty() {
        String::from_str("There are no configured actions to perform.")
    } else {
        acc
    }
}

} // verus!
