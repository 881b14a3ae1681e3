//! When content is read again, what is kept of it and when it has changed.
use vstd::prelude::*;

verus! {

/// Where content comes from.
#[derive(Clone, Copy, Debug, PartialEq, Eq, Structural)]
pub enum ProviderVehicleType {
    File,
    Http,
    Compatible,
    Inline,
}

/// How content is got for the first time.
#[derive(Clone, Copy, Debug, PartialEq, Eq, Structural)]
pub struct InitialPlan {
    /// It is read from the file that is there, not fetched.
    pub local: bool,
    /// It is got again at once.
    pub immediately_update: bool,
    /// What was fetched is written to the file.
    pub save: bool,
}

/// What is to be done once content was parsed.
#[derive(Clone, Copy, Debug, PartialEq, Eq, Structural)]
pub enum ParsedStep {
    /// It is used.
    Accept,
    /// The file cannot be used: the content is fetched.
    Fetch,
    /// It cannot be used.
    Fail,
}

/// What is to be done with content that was got again.
#[derive(Clone, Copy, Debug, PartialEq, Eq, Structural)]
pub struct UpdatePlan {
    /// It is what it was; the file counts as written now.
    pub same: bool,
    /// It is written to the file.
    pub save: bool,
}

/// What is done in turn while content is got again and again.
#[derive(Clone, Copy, Debug, PartialEq, Eq, Structural)]
pub enum PullStep {
    Update,
    Wait,
}

/// Gets content and gets it again. Times are in milliseconds since 1970.
#[derive(Debug)]
pub struct Fetcher {
    pub name: String,
    pub interval: u64,
    pub vehicle_type: ProviderVehicleType,
    pub updated_at: u64,
    /// The digest of the content.
    pub hash: u128,
}

/// Content from a time is older than the interval. One from the future counts as old.
pub open spec fn is_old(modified: u64, now: u64, interval: u64) -> bool {
    now < modified || now - modified > interval
}

/// How content is got for the first time, and when it counts as got.
pub open spec fn first_plan(modified: Option<u64>, now: u64, interval: u64) -> (InitialPlan, u64) {
    match modified {
        Some(at) => (
            InitialPlan {
                local: true,
                immediately_update: is_old(at, now, interval),
                save: false,
            },
            at,
        ),
        None => (InitialPlan { local: false, immediately_update: false, save: true }, now),
    }
}

/// What follows once content was parsed.
pub open spec fn parsed_step(plan: InitialPlan, parsed: bool) -> ParsedStep {
    if parsed {
        ParsedStep::Accept
    } else if plan.local {
        ParsedStep::Fetch
    } else {
        ParsedStep::Fail
    }
}

/// The plan once the content was fetched in place of the file.
pub open spec fn refetch_plan(plan: InitialPlan) -> InitialPlan {
    InitialPlan { local: false, save: true, ..plan }
}

/// What follows in the getting again and again.
pub open spec fn next_pull(immediately_update: bool, last: Option<PullStep>) -> PullStep {
    match last {
        Some(PullStep::Update) => PullStep::Wait,
        Some(PullStep::Wait) => PullStep::Update,
        None => if immediately_update {
            PullStep::Update
        } else {
            PullStep::Wait
        },
    }
}

impl Fetcher {
    /// What follows once content was got again.
    pub open spec fn got(&self, hash: u128, now: u64) -> (Fetcher, UpdatePlan) {
        let same = hash == self.hash;
        (
            if same {
                Fetcher { updated_at: now, ..*self }
            } else {
                *self
            },
            UpdatePlan { same, save: !same && self.vehicle_type != ProviderVehicleType::File },
        )
    }

    /// The content that is used is written to the file.
    pub open spec fn writes(&self, plan: InitialPlan) -> bool {
        plan.save && self.vehicle_type != ProviderVehicleType::File
    }

    /// What is known once changed content is in use.
    pub open spec fn with_content(&self, hash: u128, now: u64) -> Fetcher {
        Fetcher { hash, updated_at: now, ..*self }
    }

    /// Nothing was got yet.
    pub fn new(name: String, interval: u64, vehicle_type: ProviderVehicleType) -> (res: Fetcher)
        ensures
            res.name == name,
            res.interval == interval,
            res.vehicle_type == vehicle_type,
            res.updated_at == 0,
            res.hash == 0,
    {
        Fetcher { name, interval, vehicle_type, updated_at: 0, hash: 0 }
    }

    /// How content is got for the first time: from the file where there is one, given when it was
    /// written, else by fetching it.
    pub fn initial(&mut self, modified: Option<u64>, now: u64) -> (res: InitialPlan)
        ensures
            res == first_plan(modified, now, old(self).interval).0,
            *final(self) == (Fetcher {
                updated_at: first_plan(modified, now, old(self).interval).1,
                ..*old(self)
            }),
    {
        match modified {
            Some(at) => {
                self.updated_at = at;
                let old: bool = now < at || now - at > self.interval;
                InitialPlan { local: true, immediately_update: old, save: false }
            },
            None => {
                self.updated_at = now;
                InitialPlan { local: false, immediately_update: false, save: true }
            },
        }
    }

    /// What is to be done once content was parsed: what cannot be used of a file is fetched, once.
    pub fn on_parsed(plan: &InitialPlan, parsed: bool) -> (res: ParsedStep)
        ensures
            res == parsed_step(*plan, parsed),
    {
        if parsed {
            ParsedStep::Accept
        } else if plan.local {
            ParsedStep::Fetch
        } else {
            ParsedStep::Fail
        }
    }

    /// Takes note that the content was fetched after the file could not be used, and parsed.
    pub fn refetched(&mut self, plan: &InitialPlan, now: u64) -> (res: InitialPlan)
        ensures
            res == refetch_plan(*plan),
            *final(self) == (Fetcher { updated_at: now, ..*old(self) }),
    {
        self.updated_at = now;
        InitialPlan { local: false, immediately_update: plan.immediately_update, save: true }
    }

    /// Whether the content that is used is written to the file: not where the file is what it comes
    /// from.
    pub fn saves(&self, plan: &InitialPlan) -> (res: bool)
        ensures
            res == self.writes(*plan),
    {
        plan.save && self.vehicle_type != ProviderVehicleType::File
    }

    /// Takes note of the content that is used, once the file is written.
    pub fn accept(&mut self, hash: u128)
        ensures
            *final(self) == (Fetcher { hash, ..*old(self) }),
    {
        self.hash = hash;
    }

    /// Whether content is got again and again.
    pub fn pulls(&self) -> (res: bool)
        ensures
            res == (self.interval > 0),
    {
        self.interval > 0
    }

    /// What is to be done with content that was got again and parsed. Only content that is what it
    /// was is taken note of at once.
    pub fn update(&mut self, hash: u128, now: u64) -> (res: UpdatePlan)
        ensures
            *final(self) == old(self).got(hash, now).0,
            res == old(self).got(hash, now).1,
    {
        let same: bool = hash == self.hash;
        if same {
            self.updated_at = now;
        }
        UpdatePlan { same, save: !same && self.vehicle_type != ProviderVehicleType::File }
    }

    /// Takes note of content that was got again and has changed, once the file is written.
    pub fn updated(&mut self, hash: u128, now: u64)
        ensures
            *final(self) == old(self).with_content(hash, now),
    {
        self.hash = hash;
        self.updated_at = now;
    }

    /// What is done next while content is got again and again: the two take turns, and getting it
    /// comes first where it is to be done at once.
    pub fn pull_loop(immediately_update: bool, last: Option<PullStep>) -> (res: PullStep)
        ensures
            res == next_pull(immediately_update, last),
    {
        match last {
            Some(PullStep::Update) => PullStep::Wait,
            Some(PullStep::Wait) => PullStep::Update,
            None => if immediately_update {
                PullStep::Update
            } else {
                PullStep::Wait
            },
        }
    }
}

/// A file that is there is read and not fetched over, and counts as got when it was written. Where
/// there is none the content is fetched, counts as got now and is not fetched again at once.
pub proof fn law_file_comes_first(at: u64, now: u64, interval: u64)
    ensures
        first_plan(Some(at), now, interval).0.local,
        !first_plan(Some(at), now, interval).0.save,
        first_plan(Some(at), now, interval).1 == at,
        first_plan(None, now, interval) == (
            (InitialPlan { local: false, immediately_update: false, save: true }),
            now,
        ),
{
}

/// A file is fetched over at once when it is older than the interval, and not while it is as old as
/// the interval or younger. Once old it stays old. A file from the future counts as old.
pub proof fn law_old_file_is_fetched_over(at: u64, now: u64, later: u64, interval: u64)
    requires
        at <= now <= later,
    ensures
        now - at <= interval ==> !first_plan(Some(at), now, interval).0.immediately_update,
        now - at > interval ==> first_plan(Some(at), now, interval).0.immediately_update,
        first_plan(Some(at), now, interval).0.immediately_update ==> first_plan(
            Some(at),
            later,
            interval,
        ).0.immediately_update,
        now < later ==> first_plan(Some(later), now, interval).0.immediately_update,
{
}

/// What can be parsed is used. What cannot be parsed is fetched where it came from the file, and then
/// once and no more.
pub proof fn law_unusable_file_is_fetched_once(plan: InitialPlan, parsed: bool)
    ensures
        parsed_step(plan, true) == ParsedStep::Accept,
        parsed_step(plan, false) == ParsedStep::Fetch <==> plan.local,
        parsed_step(plan, parsed) == ParsedStep::Fetch ==> parsed_step(refetch_plan(plan), false)
            == ParsedStep::Fail,
        refetch_plan(plan).save,
        refetch_plan(plan).immediately_update == plan.immediately_update,
{
}

/// Content that is what it was is not written and changes nothing but the time. Content that has
/// changed is written, unless the file is where it comes from, and it is what it was from then on.
pub proof fn law_changed_content_is_written(f: Fetcher, hash: u128, now: u64, later: u64)
    ensures
        hash == f.hash ==> {
            &&& f.got(hash, now).1 == (UpdatePlan { same: true, save: false })
            &&& f.got(hash, now).0 == f.with_content(f.hash, now)
        },
        hash != f.hash ==> {
            &&& !f.got(hash, now).1.same
            &&& f.got(hash, now).1.save <==> !(f.vehicle_type is File)
            &&& f.got(hash, now).0 == f
        },
        f.with_content(hash, now).got(hash, later).1.same,
        f.with_content(hash, now).interval == f.interval,
        f.with_content(hash, now).vehicle_type == f.vehicle_type,
{
}

/// What is read from its own file is never written to it.
pub proof fn law_source_is_not_overwritten(f: Fetcher, plan: InitialPlan, hash: u128, now: u64)
    requires
        f.vehicle_type == ProviderVehicleType::File,
    ensures
        !f.writes(plan),
        !f.got(hash, now).1.save,
{
}

/// Waiting and getting take turns, whichever comes first.
pub proof fn law_turns_are_taken(immediately_update: bool, step: PullStep, again: bool)
    ensures
        next_pull(immediately_update, None) == PullStep::Update <==> immediately_update,
        next_pull(again, Some(step)) != step,
        next_pull(again, Some(next_pull(again, Some(step)))) == step,
{
}

} // verus!
