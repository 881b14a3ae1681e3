//! The life of a shared resource: built once for all who ask, closed once for all who close.
use vstd::prelude::*;

verus! {

/// What is the matter with the resource, which goes by its handle.
#[derive(Clone, Copy, Debug, PartialEq, Eq, Structural)]
pub enum SlotState {
    /// Someone is building it.
    Building { generation: u64 },
    /// It is there.
    Ready(u64),
    /// It is being closed; `owner` says whether somebody sees to it.
    Closing { value: u64, owner: bool },
    /// There is none.
    Closed,
}

/// A slot as plain values.
#[verifier::ext_equal]
pub struct SlotView {
    pub state: SlotState,
    pub generation: u64,
    pub last_failure: Option<(u64, Seq<char>)>,
    pub init_count: u64,
    pub close_count: u64,
}

/// What somebody who asks for the resource is to do.
pub enum AcquireView {
    /// Take the resource.
    Ready(u64),
    /// Give up, for this reason.
    Failed(Seq<char>),
    /// Wait for a change and ask again, for the given generation where one is being built.
    Wait(Option<u64>),
    /// Build the resource of this generation.
    Build(u64),
}

/// What somebody who closes the resource is to do.
#[derive(Clone, Copy, Debug, PartialEq, Eq, Structural)]
pub enum CloseStep {
    /// Close this resource.
    Close(u64),
    /// Wait for a change and ask again.
    Wait,
    /// Nothing: there is no resource.
    Done,
}

/// One more, from the greatest value back to zero.
pub open spec fn counted(x: u64) -> u64 {
    if x == u64::MAX {
        0
    } else {
        (x + 1) as u64
    }
}

fn count(x: u64) -> (res: u64)
    ensures
        res == counted(x),
{
    if x == 0xffff_ffff_ffff_ffff {
        0
    } else {
        x + 1
    }
}

impl SlotView {
    /// What somebody is told who asks, having waited for the generation `waited`. Who waited for
    /// a build that failed fails with it; only an empty slot is built anew.
    pub open spec fn asked(&self, waited: Option<u64>) -> (SlotView, AcquireView) {
        match (waited, self.last_failure) {
            (Some(w), Some((g, why))) if w == g => (*self, AcquireView::Failed(why)),
            _ => match self.state {
                SlotState::Ready(value) => (*self, AcquireView::Ready(value)),
                SlotState::Building { generation } => (*self, AcquireView::Wait(Some(generation))),
                SlotState::Closing { value: _, owner: _ } => (*self, AcquireView::Wait(waited)),
                SlotState::Closed => {
                    let generation = counted(self.generation);
                    (
                        SlotView {
                            state: SlotState::Building { generation },
                            generation,
                            init_count: counted(self.init_count),
                            ..*self
                        },
                        AcquireView::Build(generation),
                    )
                },
            },
        }
    }

    /// The slot once a build is done.
    pub open spec fn built(&self, value: u64) -> SlotView {
        SlotView { state: SlotState::Ready(value), ..*self }
    }

    /// The slot once the build of a generation has failed; another generation's failure changes
    /// nothing.
    pub open spec fn build_failed(&self, generation: u64, why: Seq<char>) -> SlotView {
        if self.state == (SlotState::Building { generation }) {
            SlotView {
                state: SlotState::Closed,
                last_failure: Some((generation, why)),
                ..*self
            }
        } else {
            *self
        }
    }

    /// What somebody is told who closes. Of several only one closes; when that one has gone away
    /// the next takes over.
    pub open spec fn close_asked(&self) -> (SlotView, CloseStep) {
        match self.state {
            SlotState::Ready(value) => (
                SlotView { state: SlotState::Closing { value, owner: true }, ..*self },
                CloseStep::Close(value),
            ),
            SlotState::Closing { value, owner } => if owner {
                (*self, CloseStep::Wait)
            } else {
                (
                    SlotView { state: SlotState::Closing { value, owner: true }, ..*self },
                    CloseStep::Close(value),
                )
            },
            SlotState::Building { generation: _ } => (*self, CloseStep::Wait),
            SlotState::Closed => (*self, CloseStep::Done),
        }
    }

    /// The slot once the resource is closed.
    pub open spec fn closed(&self) -> SlotView {
        SlotView {
            state: SlotState::Closed,
            close_count: counted(self.close_count),
            ..*self
        }
    }

    /// The slot once whoever was closing has gone away before it was done.
    pub open spec fn abandoned(&self) -> SlotView {
        match self.state {
            SlotState::Closing { value, owner: _ } => SlotView {
                state: SlotState::Closing { value, owner: false },
                ..*self
            },
            _ => *self,
        }
    }
}

/// While one builds, everybody else who asks waits for that very build, unless the build they
/// waited for has failed; and once it is done everybody gets the same resource.
pub proof fn law_built_once(s: SlotView, value: u64, waited: Option<u64>)
    requires
        s.asked(None).1 is Build,
    ensures
        ({
            let (building, step) = s.asked(None);
            let generation = step->Build_0;
            &&& building.init_count == counted(s.init_count)
            &&& building.asked(None) == (building, AcquireView::Wait(Some(generation)))
            &&& building.built(value).asked(None) == (
                building.built(value),
                AcquireView::Ready(value),
            )
            &&& waited is None || s.last_failure is None || waited.unwrap()
                != s.last_failure.unwrap().0 ==> building.built(value).asked(waited).1
                == AcquireView::Ready(value)
        }),
{
}

/// Whoever waited for a build that failed is told why, and whoever asks afresh builds the next
/// generation.
pub proof fn law_failure_is_shared(s: SlotView, why: Seq<char>)
    requires
        s.asked(None).1 is Build,
    ensures
        ({
            let (building, step) = s.asked(None);
            let generation = step->Build_0;
            let failed = building.build_failed(generation, why);
            &&& failed.asked(Some(generation)) == (failed, AcquireView::Failed(why))
            &&& failed.asked(None).1 == AcquireView::Build(counted(generation))
        }),
{
}

/// A resource is closed by one alone, and once it is closed the next who asks builds again.
pub proof fn law_closed_once(s: SlotView, value: u64)
    requires
        s.state == SlotState::Ready(value),
    ensures
        ({
            let (closing, step) = s.close_asked();
            &&& step == CloseStep::Close(value)
            &&& closing.close_asked() == (closing, CloseStep::Wait)
            &&& closing.abandoned().close_asked().1 == CloseStep::Close(value)
            &&& closing.closed().close_count == counted(s.close_count)
            &&& closing.closed().close_asked().1 == CloseStep::Done
            &&& closing.closed().asked(None).1 is Build
        }),
{
}

/// What somebody who asks for the resource is to do.
#[derive(Debug)]
pub enum AcquireStep {
    /// Take the resource.
    Ready(u64),
    /// Give up, for this reason.
    Failed(String),
    /// Wait for a change and ask again, for the given generation.
    Wait(Option<u64>),
    /// Build the resource of this generation.
    Build(u64),
}

impl View for AcquireStep {
    type V = AcquireView;

    open spec fn view(&self) -> AcquireView {
        match self {
            AcquireStep::Ready(value) => AcquireView::Ready(*value),
            AcquireStep::Failed(why) => AcquireView::Failed(why@),
            AcquireStep::Wait(generation) => AcquireView::Wait(*generation),
            AcquireStep::Build(generation) => AcquireView::Build(*generation),
        }
    }
}

/// The life of a shared resource.
pub struct LifecycleSlot {
    state: SlotState,
    generation: u64,
    last_failure: Option<(u64, String)>,
    init_count: u64,
    close_count: u64,
}

impl View for LifecycleSlot {
    type V = SlotView;

    closed spec fn view(&self) -> SlotView {
        SlotView {
            state: self.state,
            generation: self.generation,
            last_failure: match self.last_failure {
                Some((g, why)) => Some((g, why@)),
                None => None,
            },
            init_count: self.init_count,
            close_count: self.close_count,
        }
    }
}

impl LifecycleSlot {
    /// An empty slot.
    pub fn new() -> (res: LifecycleSlot)
        ensures
            res@ == (SlotView {
                state: SlotState::Closed,
                generation: 0,
                last_failure: None,
                init_count: 0,
                close_count: 0,
            }),
    {
        LifecycleSlot {
            state: SlotState::Closed,
            generation: 0,
            last_failure: None,
            init_count: 0,
            close_count: 0,
        }
    }

    /// How often a build was started.
    pub fn init_count(&self) -> (res: u64)
        ensures
            res == self@.init_count,
    {
        self.init_count
    }

    /// How often the resource was closed.
    pub fn close_count(&self) -> (res: u64)
        ensures
            res == self@.close_count,
    {
        self.close_count
    }

    /// Tells somebody who asks for the resource, having waited for the generation `waited`, what
    /// to do.
    pub fn acquire(&mut self, waited: Option<u64>) -> (res: AcquireStep)
        ensures
            final(self)@ == old(self)@.asked(waited).0,
            res@ == old(self)@.asked(waited).1,
    {
        if let Some(w) = waited {
            if let Some((g, why)) = &self.last_failure {
                if *g == w {
                    return AcquireStep::Failed(why.clone());
                }
            }
        }
        match self.state {
            SlotState::Ready(value) => AcquireStep::Ready(value),
            SlotState::Building { generation } => AcquireStep::Wait(Some(generation)),
            SlotState::Closing { value: _, owner: _ } => AcquireStep::Wait(waited),
            SlotState::Closed => {
                let generation: u64 = count(self.generation);
                self.generation = generation;
                self.state = SlotState::Building { generation };
                self.init_count = count(self.init_count);
                AcquireStep::Build(generation)
            },
        }
    }

    /// A build is done.
    pub fn publish(&mut self, value: u64)
        ensures
            final(self)@ == old(self)@.built(value),
    {
        self.state = SlotState::Ready(value);
    }

    /// The build of a generation has failed.
    pub fn fail(&mut self, generation: u64, why: String)
        ensures
            final(self)@ == old(self)@.build_failed(generation, why@),
    {
        if self.state == (SlotState::Building { generation }) {
            self.state = SlotState::Closed;
            self.last_failure = Some((generation, why));
        }
    }

    /// Whoever built a generation has gone away.
    pub fn cancel_build(&mut self, generation: u64)
        ensures
            final(self)@ == old(self)@.build_failed(
                generation,
                "transport initialization cancelled"@,
            ),
    {
        self.fail(generation, "transport initialization cancelled".to_owned());
    }

    /// Tells somebody who closes the resource what to do.
    pub fn close(&mut self) -> (res: CloseStep)
        ensures
            final(self)@ == old(self)@.close_asked().0,
            res == old(self)@.close_asked().1,
    {
        match self.state {
            SlotState::Ready(value) => {
                self.state = SlotState::Closing { value, owner: true };
                CloseStep::Close(value)
            },
            SlotState::Closing { value, owner } => {
                if owner {
                    CloseStep::Wait
                } else {
                    self.state = SlotState::Closing { value, owner: true };
                    CloseStep::Close(value)
                }
            },
            SlotState::Building { generation: _ } => CloseStep::Wait,
            SlotState::Closed => CloseStep::Done,
        }
    }

    /// The resource is closed.
    pub fn close_complete(&mut self)
        ensures
            final(self)@ == old(self)@.closed(),
    {
        self.state = SlotState::Closed;
        self.close_count = count(self.close_count);
    }

    /// Whoever was closing has gone away.
    pub fn close_abandoned(&mut self)
        ensures
            final(self)@ == old(self)@.abandoned(),
    {
        if let SlotState::Closing { value, owner: _ } = self.state {
            self.state = SlotState::Closing { value, owner: false };
        }
    }
}

/// While a resource is built or closed, nobody gets one and nobody starts another; who closes waits
/// for the build.
pub proof fn law_nobody_overtakes(s: SlotView, generation: u64, value: u64, owner: bool)
    requires
        s.state == (SlotState::Building { generation }) || s.state == (SlotState::Closing {
            value,
            owner,
        }),
    ensures
        s.asked(None).1 is Wait,
        s.asked(None).0 == s,
        s.state is Building ==> s.close_asked() == (s, CloseStep::Wait),
        s.state is Closing && owner ==> s.close_asked() == (s, CloseStep::Wait),
        s.state is Closing && !owner ==> s.close_asked().1 == CloseStep::Close(value),
{
}

/// The failure of a build that is not the one under way changes nothing.
pub proof fn law_stale_failure_is_ignored(s: SlotView, generation: u64, why: Seq<char>)
    requires
        s.state != (SlotState::Building { generation }),
    ensures
        s.build_failed(generation, why) == s,
{
}

} // verus!
