//! The payload that the assistant hands to its status line.
//!
//! Every field may be absent: the payload varies by version, by model and by
//! the state of the account. A getter answers with what is there, or nothing.

use vstd::prelude::*;
use vstd::string::*;

use crate::double::Double;
use crate::transcript;

verus! {

#[derive(Debug, Default, Clone)]
pub struct StatusPayload {
    pub session_id: Option<String>,
    pub transcript_path: Option<String>,
    pub cwd: Option<String>,
    pub model: Option<Model>,
    pub workspace: Option<Workspace>,
    pub cost: Option<Cost>,
    pub context_window: Option<ContextWindow>,
    pub effort: Option<Effort>,
    pub rate_limits: Option<RateLimits>,
}

#[derive(Debug, Default, Clone)]
pub struct Model {
    pub id: Option<String>,
    pub display_name: Option<String>,
}

#[derive(Debug, Default, Clone)]
pub struct Workspace {
    pub current_dir: Option<String>,
    pub project_dir: Option<String>,
}

#[derive(Debug, Default, Clone)]
pub struct Cost {
    pub total_cost_usd: Option<Double>,
    pub total_lines_added: Option<u64>,
    pub total_lines_removed: Option<u64>,
}

/// How full the context window is.
#[derive(Debug, Default, Clone)]
pub struct ContextWindow {
    pub context_window_size: Option<u64>,
    pub used_percentage: Option<Double>,
}

#[derive(Debug, Default, Clone)]
pub struct Effort {
    pub level: Option<String>,
}

#[derive(Debug, Default, Clone)]
pub struct RateLimits {
    pub five_hour: Option<RateLimit>,
    pub seven_day: Option<RateLimit>,
}

/// How much of a rate limit is used. `resets_at` is in Unix seconds.
#[derive(Debug, Default, Clone, Copy, PartialEq)]
pub struct RateLimit {
    pub used_percentage: Option<Double>,
    pub resets_at: Option<i64>,
}

/// The first of two that is there.
pub open spec fn first_of<T>(a: Option<T>, b: Option<T>) -> Option<T> {
    match a {
        Some(_) => a,
        None => b,
    }
}

/// The characters of an optional text.
pub open spec fn shown(o: Option<&str>) -> Option<Seq<char>> {
    match o {
        Some(s) => Some(s@),
        None => None,
    }
}

fn text_in(o: &Option<String>) -> (r: Option<&str>)
    ensures
        shown(r) == transcript::opt_text(*o),
{
    match o {
        Some(s) => Some(s.as_str()),
        None => None,
    }
}

impl StatusPayload {
    /// The workspace's current directory; the working directory of older
    /// payloads where there is none.
    pub open spec fn dir(self) -> Option<Seq<char>> {
        first_of(
            match self.workspace {
                Some(w) => transcript::opt_text(w.current_dir),
                None => None,
            },
            transcript::opt_text(self.cwd),
        )
    }

    /// The directory to display.
    pub fn display_dir(&self) -> (r: Option<&str>)
        ensures
            shown(r) == self.dir(),
    {
        match &self.workspace {
            Some(w) => match text_in(&w.current_dir) {
                Some(dir) => Some(dir),
                None => text_in(&self.cwd),
            },
            None => text_in(&self.cwd),
        }
    }

    /// The directory that ledger rows are attributed to: the workspace's project
    /// directory, or the one that is displayed.
    pub fn project_dir(&self) -> (r: Option<&str>)
        ensures
            shown(r) == first_of(
                match self.workspace {
                    Some(w) => transcript::opt_text(w.project_dir),
                    None => None,
                },
                self.dir(),
            ),
    {
        match &self.workspace {
            Some(w) => match text_in(&w.project_dir) {
                Some(dir) => Some(dir),
                None => self.display_dir(),
            },
            None => self.display_dir(),
        }
    }

    /// The name of the model, or its id.
    pub open spec fn model_text(self) -> Option<Seq<char>> {
        match self.model {
            Some(m) => first_of(transcript::opt_text(m.display_name), transcript::opt_text(m.id)),
            None => None,
        }
    }

    /// The name of the model, or its id.
    pub fn model_name(&self) -> (r: Option<&str>)
        ensures
            shown(r) == self.model_text(),
    {
        match &self.model {
            Some(m) => match text_in(&m.display_name) {
                Some(name) => Some(name),
                None => text_in(&m.id),
            },
            None => None,
        }
    }

    /// The effort level, on models that have one.
    pub open spec fn effort_text(self) -> Option<Seq<char>> {
        match self.effort {
            Some(e) => transcript::opt_text(e.level),
            None => None,
        }
    }

    /// The effort level, on models that have one.
    pub fn effort_level(&self) -> (r: Option<&str>)
        ensures
            shown(r) == self.effort_text(),
    {
        match &self.effort {
            Some(e) => text_in(&e.level),
            None => None,
        }
    }

    /// How full the context window is, in percent.
    pub open spec fn context_used(self) -> Option<Double> {
        match self.context_window {
            Some(c) => c.used_percentage,
            None => None,
        }
    }

    /// How full the context window is, in percent.
    pub fn context_percent(&self) -> (r: Option<Double>)
        ensures
            r == self.context_used(),
    {
        match &self.context_window {
            Some(c) => c.used_percentage,
            None => None,
        }
    }

    /// The limit of the five-hour window.
    pub open spec fn five_hour_limit(self) -> Option<RateLimit> {
        match self.rate_limits {
            Some(r) => r.five_hour,
            None => None,
        }
    }

    /// The limit of the five-hour window.
    pub fn five_hour(&self) -> (r: Option<RateLimit>)
        ensures
            r == self.five_hour_limit(),
    {
        match &self.rate_limits {
            Some(r) => r.five_hour,
            None => None,
        }
    }

    /// The limit of the seven-day window.
    pub open spec fn seven_day_limit(self) -> Option<RateLimit> {
        match self.rate_limits {
            Some(r) => r.seven_day,
            None => None,
        }
    }

    /// The limit of the seven-day window.
    pub fn seven_day(&self) -> (r: Option<RateLimit>)
        ensures
            r == self.seven_day_limit(),
    {
        match &self.rate_limits {
            Some(r) => r.seven_day,
            None => None,
        }
    }
}

// ---------------------------------------------------------------------------
// The history of the rate limits
// ---------------------------------------------------------------------------

/// One observation of the rate limits.
#[derive(Debug, Clone, Copy, PartialEq)]
pub struct Limits {
    pub five_hour_pct: Option<Double>,
    pub five_hour_resets_at: Option<i64>,
    pub seven_day_pct: Option<Double>,
    pub seven_day_resets_at: Option<i64>,
}

/// Both absent, or both there and the same number.
pub open spec fn same_percent(a: Option<Double>, b: Option<Double>) -> bool {
    match (a, b) {
        (Some(x), Some(y)) => x.same_number(y),
        (None, None) => true,
        _ => false,
    }
}

fn percent_unchanged(a: Option<Double>, b: Option<Double>) -> (r: bool)
    ensures
        r == same_percent(a, b),
{
    match (a, b) {
        (Some(x), Some(y)) => x == y,
        (None, None) => true,
        _ => false,
    }
}

impl Limits {
    /// What the two limits say.
    pub open spec fn of(five_hour: Option<RateLimit>, seven_day: Option<RateLimit>) -> Limits {
        Limits {
            five_hour_pct: match five_hour {
                Some(r) => r.used_percentage,
                None => None,
            },
            five_hour_resets_at: match five_hour {
                Some(r) => r.resets_at,
                None => None,
            },
            seven_day_pct: match seven_day {
                Some(r) => r.used_percentage,
                None => None,
            },
            seven_day_resets_at: match seven_day {
                Some(r) => r.resets_at,
                None => None,
            },
        }
    }

    /// Whether two observations say the same.
    pub open spec fn same(self, other: Limits) -> bool {
        &&& same_percent(self.five_hour_pct, other.five_hour_pct)
        &&& self.five_hour_resets_at == other.five_hour_resets_at
        &&& same_percent(self.seven_day_pct, other.seven_day_pct)
        &&& self.seven_day_resets_at == other.seven_day_resets_at
    }

    /// Whether two observations say the same.
    pub fn unchanged(&self, other: &Limits) -> (r: bool)
        ensures
            r == self.same(*other),
    {
        percent_unchanged(self.five_hour_pct, other.five_hour_pct) && self.five_hour_resets_at
            == other.five_hour_resets_at && percent_unchanged(
            self.seven_day_pct,
            other.seven_day_pct,
        ) && self.seven_day_resets_at == other.seven_day_resets_at
    }
}

/// What to add to the history of the rate limits, where `last` is its newest
/// entry: the observation, if there is one and it differs from the last.
pub open spec fn to_record(
    five_hour: Option<RateLimit>,
    seven_day: Option<RateLimit>,
    last: Option<Limits>,
) -> Option<Limits> {
    let seen = Limits::of(five_hour, seven_day);
    if five_hour is None && seven_day is None {
        None
    } else if last is Some && last->0.same(seen) {
        None
    } else {
        Some(seen)
    }
}

/// What to add to the history of the rate limits. The status line fires many
/// times per turn; an observation that says nothing new adds nothing.
pub fn limits_to_record(
    five_hour: Option<RateLimit>,
    seven_day: Option<RateLimit>,
    last: Option<Limits>,
) -> (r: Option<Limits>)
    ensures
        r == to_record(five_hour, seven_day, last),
{
    if five_hour.is_none() && seven_day.is_none() {
        return None;
    }
    let (five_hour_pct, five_hour_resets_at) = match five_hour {
        Some(r) => (r.used_percentage, r.resets_at),
        None => (None, None),
    };
    let (seven_day_pct, seven_day_resets_at) = match seven_day {
        Some(r) => (r.used_percentage, r.resets_at),
        None => (None, None),
    };
    let seen = Limits { five_hour_pct, five_hour_resets_at, seven_day_pct, seven_day_resets_at };
    match last {
        Some(last) => if last.unchanged(&seen) {
            None
        } else {
            Some(seen)
        },
        None => Some(seen),
    }
}

/// An observation that was just recorded is not recorded again, unless it holds
/// a percentage that is no number.
pub proof fn law_an_unchanged_observation_is_not_recorded_again(
    five_hour: Option<RateLimit>,
    seven_day: Option<RateLimit>,
    last: Option<Limits>,
)
    requires
        to_record(five_hour, seven_day, last) is Some,
        Limits::of(five_hour, seven_day).five_hour_pct matches Some(x) ==> !x.is_nan(),
        Limits::of(five_hour, seven_day).seven_day_pct matches Some(x) ==> !x.is_nan(),
    ensures
        to_record(five_hour, seven_day, to_record(five_hour, seven_day, last)) is None,
{
}

/// An observation that says something new is always recorded, as it is.
pub proof fn law_a_changed_observation_is_recorded(
    five_hour: Option<RateLimit>,
    seven_day: Option<RateLimit>,
    last: Option<Limits>,
)
    requires
        five_hour is Some || seven_day is Some,
        last matches Some(l) ==> !l.same(Limits::of(five_hour, seven_day)),
    ensures
        to_record(five_hour, seven_day, last) == Some(Limits::of(five_hour, seven_day)),
{
}

/// What a text that is there says; nothing where there is none.
pub open spec fn says(r: Option<&str>, o: Option<String>) -> bool {
    match (r, o) {
        (Some(s), Some(t)) => s@ == t@,
        (None, None) => true,
        _ => false,
    }
}

/// The directory to display is the workspace's current one where it is there, and
/// else the working directory; rows are attributed to the workspace's project
/// where it is there, and else to the directory that is displayed.
pub proof fn law_which_directory_is_meant(
    p: &StatusPayload,
    display: Option<&str>,
    project: Option<&str>,
)
    requires
        call_ensures(StatusPayload::display_dir, (p,), display),
        call_ensures(StatusPayload::project_dir, (p,), project),
    ensures
        p.workspace matches Some(w) ==> w.current_dir is Some ==> says(display, w.current_dir),
        (p.workspace matches Some(w) ==> w.current_dir is None) ==> says(display, p.cwd),
        p.workspace matches Some(w) ==> w.project_dir is Some ==> says(project, w.project_dir),
        (p.workspace matches Some(w) ==> w.project_dir is None) ==> shown(project) == shown(
            display,
        ),
{
}

/// The model is called by its name where it has one, and else by its id; the
/// effort level is the one that the payload holds.
pub proof fn law_what_the_model_is_called(
    p: &StatusPayload,
    name: Option<&str>,
    level: Option<&str>,
)
    requires
        call_ensures(StatusPayload::model_name, (p,), name),
        call_ensures(StatusPayload::effort_level, (p,), level),
    ensures
        p.model is None ==> name is None,
        p.model matches Some(m) ==> says(
            name,
            if m.display_name is Some {
                m.display_name
            } else {
                m.id
            },
        ),
        p.effort is None ==> level is None,
        p.effort matches Some(e) ==> says(level, e.level),
{
}

/// Each window's limit is the one that the payload holds for it, and so is the use
/// of the context.
pub proof fn law_each_limit_is_its_own(
    p: &StatusPayload,
    context: Option<Double>,
    five: Option<RateLimit>,
    seven: Option<RateLimit>,
)
    requires
        call_ensures(StatusPayload::context_percent, (p,), context),
        call_ensures(StatusPayload::five_hour, (p,), five),
        call_ensures(StatusPayload::seven_day, (p,), seven),
    ensures
        p.context_window is None ==> context is None,
        p.context_window matches Some(c) ==> context == c.used_percentage,
        p.rate_limits is None ==> five is None && seven is None,
        p.rate_limits matches Some(r) ==> five == r.five_hour && seven == r.seven_day,
{
}

/// Two observations are the same exactly if both percentages and both times of
/// reset are: a change of any one of the four is a change.
pub proof fn law_when_an_observation_has_changed(a: &Limits, b: &Limits, same: bool)
    requires
        call_ensures(Limits::unchanged, (a, b), same),
    ensures
        a.five_hour_resets_at != b.five_hour_resets_at ==> !same,
        a.seven_day_resets_at != b.seven_day_resets_at ==> !same,
        (a.five_hour_pct is Some) != (b.five_hour_pct is Some) ==> !same,
        (a.seven_day_pct is Some) != (b.seven_day_pct is Some) ==> !same,
        a.five_hour_pct is Some && b.five_hour_pct is Some
            && !a.five_hour_pct->0.same_number(b.five_hour_pct->0) ==> !same,
        a.seven_day_pct is Some && b.seven_day_pct is Some
            && !a.seven_day_pct->0.same_number(b.seven_day_pct->0) ==> !same,
        a == b && (a.five_hour_pct matches Some(x) ==> !x.is_nan()) && (
        a.seven_day_pct matches Some(x) ==> !x.is_nan()) ==> same,
{
}

/// What is recorded of an observation is what each limit says: its own percentage
/// and its own time of reset. Without either limit nothing is recorded.
pub proof fn law_what_is_recorded_of_the_limits(
    five: Option<RateLimit>,
    seven: Option<RateLimit>,
    last: Option<Limits>,
    r: Option<Limits>,
)
    requires
        call_ensures(limits_to_record, (five, seven, last), r),
    ensures
        five is None && seven is None ==> r is None,
        (five is Some || seven is Some) && last is None ==> r is Some,
        r matches Some(l) ==> {
            &&& l.five_hour_pct == (if five is Some {
                five->0.used_percentage
            } else {
                None
            })
            &&& l.five_hour_resets_at == (if five is Some {
                five->0.resets_at
            } else {
                None
            })
            &&& l.seven_day_pct == (if seven is Some {
                seven->0.used_percentage
            } else {
                None
            })
            &&& l.seven_day_resets_at == (if seven is Some {
                seven->0.resets_at
            } else {
                None
            })
        },
{
}

} // verus!
