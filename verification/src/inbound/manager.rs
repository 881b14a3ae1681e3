//! Which listeners there are, which of them run, and how they change.
use vstd::prelude::*;

use crate::inbound::opts;
use crate::inbound::opts::{InboundDetail, InboundOpts, OptsView};
use crate::ip::IpAddr;
use crate::text;
use crate::uri;
use crate::uri::parse_uri;

verus! {

/// The ports of the plain listeners.
#[derive(Clone, Copy, Debug, PartialEq, Eq)]
pub struct Ports {
    pub port: Option<u16>,
    pub socks_port: Option<u16>,
    pub redir_port: Option<u16>,
    pub tproxy_port: Option<u16>,
    pub mixed_port: Option<u16>,
}

impl Default for Ports {
    fn default() -> (res: Ports)
        ensures
            res == no_ports(),
    {
        Ports {
            port: None,
            socks_port: None,
            redir_port: None,
            tproxy_port: None,
            mixed_port: None,
        }
    }
}

/// No ports.
pub open spec fn no_ports() -> Ports {
    Ports { port: None, socks_port: None, redir_port: None, tproxy_port: None, mixed_port: None }
}

impl Ports {
    /// The port for a type of listener.
    pub open spec fn of(&self, detail: opts::DetailView) -> Option<u16> {
        match detail {
            opts::DetailView::Http => self.port,
            opts::DetailView::Socks { .. } => self.socks_port,
            opts::DetailView::Mixed { .. } => self.mixed_port,
            opts::DetailView::TProxy { .. } => self.tproxy_port,
            opts::DetailView::Redir => self.redir_port,
            _ => None,
        }
    }

    /// The ports with one for a type of listener.
    pub open spec fn with(&self, detail: opts::DetailView, port: u16) -> Ports {
        match detail {
            opts::DetailView::Http => Ports { port: Some(port), ..*self },
            opts::DetailView::Socks { .. } => Ports { socks_port: Some(port), ..*self },
            opts::DetailView::Mixed { .. } => Ports { mixed_port: Some(port), ..*self },
            opts::DetailView::TProxy { .. } => Ports { tproxy_port: Some(port), ..*self },
            opts::DetailView::Redir => Ports { redir_port: Some(port), ..*self },
            _ => *self,
        }
    }

    fn get(&self, detail: &InboundDetail) -> (res: Option<u16>)
        ensures
            res == self.of(detail@),
    {
        match detail {
            InboundDetail::Http => self.port,
            InboundDetail::Socks { .. } => self.socks_port,
            InboundDetail::Mixed { .. } => self.mixed_port,
            InboundDetail::TProxy { .. } => self.tproxy_port,
            InboundDetail::Redir => self.redir_port,
            _ => None,
        }
    }

    fn put(&mut self, detail: &InboundDetail, port: u16)
        ensures
            *final(self) == old(self).with(detail@, port),
    {
        match detail {
            InboundDetail::Http => self.port = Some(port),
            InboundDetail::Socks { .. } => self.socks_port = Some(port),
            InboundDetail::Mixed { .. } => self.mixed_port = Some(port),
            InboundDetail::TProxy { .. } => self.tproxy_port = Some(port),
            InboundDetail::Redir => self.redir_port = Some(port),
            _ => {},
        }
    }
}

/// A listener as it is shown.
#[derive(Debug)]
pub struct InboundEndpoint {
    pub name: String,
    pub inbound_type: String,
    pub port: u16,
    pub active: bool,
}

/// A listener as it is shown.
pub struct EndpointView {
    pub name: Seq<char>,
    pub inbound_type: Seq<char>,
    pub port: u16,
    pub active: bool,
}

impl View for InboundEndpoint {
    type V = EndpointView;

    open spec fn view(&self) -> EndpointView {
        EndpointView {
            name: self.name@,
            inbound_type: self.inbound_type@,
            port: self.port,
            active: self.active,
        }
    }
}

/// Listeners as they are shown.
pub open spec fn endpoint_views(list: Seq<InboundEndpoint>) -> Seq<EndpointView> {
    list.map_values(|e: InboundEndpoint| e@)
}

/// A listener and the task that runs it.
#[derive(Debug)]
pub struct HandleEntry {
    pub opts: InboundOpts,
    /// The number of the task, where one was started and not taken away.
    pub handle: Option<u64>,
    /// Whether the task is told of changes to the users.
    pub users_tx: bool,
}

/// A listener and the task that runs it.
pub struct EntryView {
    pub opts: OptsView,
    pub handle: Option<u64>,
    pub users_tx: bool,
}

impl View for HandleEntry {
    type V = EntryView;

    open spec fn view(&self) -> EntryView {
        EntryView { opts: self.opts@, handle: self.handle, users_tx: self.users_tx }
    }
}

/// Listeners and their tasks.
pub open spec fn entry_views(list: Seq<HandleEntry>) -> Seq<EntryView> {
    list.map_values(|e: HandleEntry| e@)
}

/// The place of a listener, from `from` on.
pub open spec fn place_of(list: Seq<EntryView>, key: OptsView, from: int) -> int
    decreases list.len() - from,
{
    if from < 0 || from >= list.len() || opts::same_listener(list[from].opts, key) {
        from
    } else {
        place_of(list, key, from + 1)
    }
}

/// The listeners with one more. Where the same one is there, it gets the other's task.
pub open spec fn entry_put(list: Seq<EntryView>, entry: EntryView) -> Seq<EntryView> {
    let at = place_of(list, entry.opts, 0);
    if at < list.len() {
        list.update(
            at,
            EntryView { handle: entry.handle, users_tx: entry.users_tx, ..list[at] },
        )
    } else {
        list.push(entry)
    }
}

fn find_entry(list: &Vec<HandleEntry>, key: &InboundOpts) -> (res: usize)
    ensures
        res == place_of(entry_views(list@), key@, 0),
        res <= list@.len(),
{
    let ghost all = entry_views(list@);
    let mut i: usize = 0;
    while i < list.len()
        invariant
            i <= list@.len(),
            all == entry_views(list@),
            place_of(all, key@, 0) == place_of(all, key@, i as int),
        decreases list@.len() - i,
    {
        assert(all[i as int] == list@[i as int]@);
        if list[i].opts.same(key) {
            return i;
        }
        i = i + 1;
    }
    i
}

fn put_entry(list: &mut Vec<HandleEntry>, entry: HandleEntry)
    ensures
        entry_views(final(list)@) == entry_put(entry_views(old(list)@), entry@),
{
    let at: usize = find_entry(list, &entry.opts);
    let ghost before = entry_views(list@);
    if at < list.len() {
        assert(before[at as int] == list@[at as int]@);
        list[at].handle = entry.handle;
        list[at].users_tx = entry.users_tx;
        assert(entry_views(list@) =~= entry_put(before, entry@));
    } else {
        list.push(entry);
        assert(entry_views(list@) =~= before.push(entry@));
    }
}

/// The first `n` listeners, none of them running; the same one twice counts once.
pub open spec fn listed(all: Seq<OptsView>, n: int) -> Seq<EntryView>
    decreases n,
{
    if n <= 0 {
        Seq::empty()
    } else {
        entry_put(
            listed(all, n - 1),
            EntryView { opts: all[n - 1], handle: None, users_tx: false },
        )
    }
}

/// Listeners.
pub open spec fn opts_views(list: Seq<InboundOpts>) -> Seq<OptsView> {
    list.map_values(|o: InboundOpts| o@)
}

/// The ports of the first `n` listeners: of several of one type, that of the last.
pub open spec fn ports_of(list: Seq<EntryView>, n: int) -> Ports
    decreases n,
{
    if n <= 0 {
        no_ports()
    } else {
        ports_of(list, n - 1).with(list[n - 1].opts.detail, list[n - 1].opts.common.port)
    }
}

/// The listeners with something changed in each of the first `n`.
pub open spec fn changed_all(list: Seq<EntryView>, n: int, change: spec_fn(EntryView) -> EntryView) -> Seq<
    EntryView,
>
    decreases n,
{
    if n <= 0 {
        Seq::empty()
    } else {
        entry_put(changed_all(list, n - 1, change), change(list[n - 1]))
    }
}

/// The listener with access from other machines allowed or not.
pub open spec fn with_lan(e: EntryView, allow_lan: bool) -> EntryView {
    EntryView {
        opts: OptsView { common: opts::CommonView { allow_lan, ..e.opts.common }, ..e.opts },
        ..e
    }
}

/// The listener at another address.
pub open spec fn with_listen(e: EntryView, listen: IpAddr) -> EntryView {
    EntryView {
        opts: OptsView { common: opts::CommonView { listen, ..e.opts.common }, ..e.opts },
        ..e
    }
}

/// The listener at another port.
pub open spec fn with_port(e: EntryView, port: u16) -> EntryView {
    EntryView {
        opts: OptsView { common: opts::CommonView { port, ..e.opts.common }, ..e.opts },
        ..e
    }
}

/// The listener gets another port.
pub open spec fn moves(e: EntryView, ports: Ports) -> bool {
    ports.of(e.opts.detail) is Some && ports.of(e.opts.detail) != Some(e.opts.common.port)
}

/// Those of the first `n` listeners that keep their port.
pub open spec fn staying(list: Seq<EntryView>, n: int, ports: Ports) -> Seq<EntryView>
    decreases n,
{
    if n <= 0 {
        Seq::empty()
    } else if moves(list[n - 1], ports) {
        staying(list, n - 1, ports)
    } else {
        staying(list, n - 1, ports).push(list[n - 1])
    }
}

/// Those of the first `n` listeners that get another port.
pub open spec fn moving(list: Seq<EntryView>, n: int, ports: Ports) -> Seq<EntryView>
    decreases n,
{
    if n <= 0 {
        Seq::empty()
    } else if moves(list[n - 1], ports) {
        moving(list, n - 1, ports).push(list[n - 1])
    } else {
        moving(list, n - 1, ports)
    }
}

/// The listeners, and the first `n` of those that get another port.
pub open spec fn moved(
    start: Seq<EntryView>,
    list: Seq<EntryView>,
    n: int,
    ports: Ports,
) -> Seq<EntryView>
    decreases n,
{
    if n <= 0 {
        start
    } else {
        let e = list[n - 1];
        entry_put(
            moved(start, list, n - 1, ports),
            with_port(e, ports.of(e.opts.detail).unwrap()),
        )
    }
}

/// A listener as it is shown; `finished` are the tasks that have ended.
pub open spec fn shown(e: EntryView, finished: Seq<u64>) -> EndpointView {
    EndpointView {
        name: e.opts.common.name,
        inbound_type: opts::type_text(e.opts.detail),
        port: e.opts.common.port,
        active: e.handle is Some && !finished.contains(e.handle.unwrap()),
    }
}

fn has_ended(finished: &Vec<u64>, task: u64) -> (res: bool)
    ensures
        res == finished@.contains(task),
{
    let mut i: usize = 0;
    while i < finished.len()
        invariant
            i <= finished@.len(),
            forall|j: int| 0 <= j < i ==> finished@[j] != task,
        decreases finished@.len() - i,
    {
        if finished[i] == task {
            assert(finished@[i as int] == task);
            return true;
        }
        i = i + 1;
    }
    false
}

fn show(e: &HandleEntry, finished: &Vec<u64>) -> (res: InboundEndpoint)
    ensures
        res@ == shown(e@, finished@),
{
    let active: bool = match e.handle {
        Some(task) => !has_ended(finished, task),
        None => false,
    };
    InboundEndpoint {
        name: e.opts.common_opts.name.clone(),
        inbound_type: e.opts.kind_name().to_owned(),
        port: e.opts.common_opts.port,
        active,
    }
}

/// The first `n` listeners as they are shown.
pub open spec fn shown_all(list: Seq<EntryView>, finished: Seq<u64>) -> Seq<EndpointView> {
    list.map_values(|e: EntryView| shown(e, finished))
}

fn show_all(out: &mut Vec<InboundEndpoint>, list: &Vec<HandleEntry>, finished: &Vec<u64>)
    ensures
        endpoint_views(final(out)@) == endpoint_views(old(out)@) + shown_all(
            entry_views(list@),
            finished@,
        ),
{
    let ghost all = shown_all(entry_views(list@), finished@);
    let ghost start = endpoint_views(out@);
    let mut i: usize = 0;
    assert(start + all.take(0) =~= start);
    while i < list.len()
        invariant
            i <= list@.len(),
            all == shown_all(entry_views(list@), finished@),
            endpoint_views(out@) == start + all.take(i as int),
        decreases list@.len() - i,
    {
        let ghost before = endpoint_views(out@);
        assert(all[i as int] == shown(list@[i as int]@, finished@));
        out.push(show(&list[i], finished));
        assert(endpoint_views(out@) =~= before.push(all[i as int]));
        assert(start + all.take(i + 1) =~= (start + all.take(i as int)).push(all[i as int]));
        i = i + 1;
    }
    assert(all.take(i as int) =~= all);
}

/// The tasks of listeners.
pub open spec fn tasks_of(list: Seq<EntryView>, n: int) -> Seq<u64>
    decreases n,
{
    if n <= 0 {
        Seq::empty()
    } else {
        match list[n - 1].handle {
            Some(task) => tasks_of(list, n - 1).push(task),
            None => tasks_of(list, n - 1),
        }
    }
}

/// The listeners without their tasks.
pub open spec fn stopped(list: Seq<EntryView>) -> Seq<EntryView> {
    list.map_values(|e: EntryView| EntryView { handle: None, ..e })
}

fn take_tasks(out: &mut Vec<u64>, list: &mut Vec<HandleEntry>)
    ensures
        final(out)@ == old(out)@ + tasks_of(entry_views(old(list)@), old(list)@.len() as int),
        entry_views(final(list)@) == stopped(entry_views(old(list)@)),
{
    let ghost all = entry_views(list@);
    let ghost start = out@;
    let mut i: usize = 0;
    assert(start + tasks_of(all, 0) =~= start);
    while i < list.len()
        invariant
            i <= list@.len(),
            list@.len() == all.len(),
            out@ == start + tasks_of(all, i as int),
            forall|j: int| 0 <= j < i ==> (#[trigger] list@[j])@ == stopped(all)[j],
            forall|j: int| i <= j < list@.len() ==> (#[trigger] list@[j])@ == all[j],
        decreases list@.len() - i,
    {
        assert(list@[i as int]@ == all[i as int]);
        if let Some(task) = list[i].handle {
            out.push(task);
            assert(out@ =~= start + tasks_of(all, i as int).push(task));
        }
        list[i].handle = None;
        i = i + 1;
    }
    assert(entry_views(list@) =~= stopped(all));
}

/// The listeners of a provider.
#[derive(Debug)]
pub struct ProviderHandles {
    pub name: String,
    pub handles: Vec<HandleEntry>,
}

/// The listeners of providers.
pub open spec fn provider_views(list: Seq<ProviderHandles>) -> Seq<(Seq<char>, Seq<EntryView>)> {
    list.map_values(|p: ProviderHandles| (p.name@, entry_views(p.handles@)))
}

/// The place of a provider, from `from` on.
pub open spec fn provider_place(list: Seq<(Seq<char>, Seq<EntryView>)>, name: Seq<char>, from: int) -> int
    decreases list.len() - from,
{
    if from < 0 || from >= list.len() || list[from].0 == name {
        from
    } else {
        provider_place(list, name, from + 1)
    }
}

fn find_provider(list: &Vec<ProviderHandles>, name: &str) -> (res: usize)
    ensures
        res == provider_place(provider_views(list@), name@, 0),
        res <= list@.len(),
{
    let ghost all = provider_views(list@);
    let mut i: usize = 0;
    while i < list.len()
        invariant
            i <= list@.len(),
            all == provider_views(list@),
            provider_place(all, name@, 0) == provider_place(all, name@, i as int),
        decreases list@.len() - i,
    {
        assert(all[i as int].0 == list@[i as int].name@);
        if text::same(list[i].name.as_str(), name) {
            return i;
        }
        i = i + 1;
    }
    i
}

/// What is to be done when a provider's listeners change.
pub struct ProviderPlan {
    /// The listeners that run on, with their new users.
    pub kept: Vec<HandleEntry>,
    /// The tasks that are told of their users, by their place among those that run on.
    pub told: Vec<usize>,
    /// The listeners that are stopped, before any is started.
    pub removed: Vec<HandleEntry>,
    /// The listeners that are started.
    pub added: Vec<InboundOpts>,
}

/// What is to be done when a provider's listeners change.
#[verifier::ext_equal]
pub struct PlanView {
    pub kept: Seq<EntryView>,
    pub told: Seq<int>,
    pub removed: Seq<EntryView>,
    pub added: Seq<OptsView>,
}

/// Places as numbers.
pub open spec fn places(list: Seq<usize>) -> Seq<int> {
    list.map_values(|i: usize| i as int)
}

impl View for ProviderPlan {
    type V = PlanView;

    open spec fn view(&self) -> PlanView {
        PlanView {
            kept: entry_views(self.kept@),
            told: places(self.told@),
            removed: entry_views(self.removed@),
            added: opts_views(self.added@),
        }
    }
}

/// What is to be done for the first `n` of a provider's new listeners: one that runs already runs
/// on under its new users, which its task is told of; one that does not is started. What is left of
/// the old ones is stopped.
pub open spec fn reconciled(old_handles: Seq<EntryView>, new_opts: Seq<OptsView>, n: int) -> PlanView
    decreases n,
{
    if n <= 0 {
        PlanView {
            kept: Seq::empty(),
            told: Seq::empty(),
            removed: old_handles,
            added: Seq::empty(),
        }
    } else {
        let before = reconciled(old_handles, new_opts, n - 1);
        let opts = new_opts[n - 1];
        let at = place_of(before.removed, opts, 0);
        if at < before.removed.len() {
            let entry = before.removed[at];
            PlanView {
                kept: before.kept.push(EntryView { opts, ..entry }),
                told: if opts::has_users(opts.detail) && entry.users_tx {
                    before.told.push(before.kept.len() as int)
                } else {
                    before.told
                },
                removed: before.removed.remove(at),
                ..before
            }
        } else {
            PlanView { added: before.added.push(opts), ..before }
        }
    }
}

/// The listeners that run on, and the first `n` of those that were started.
pub open spec fn joined(kept: Seq<EntryView>, started: Seq<EntryView>, n: int) -> Seq<EntryView>
    decreases n,
{
    if n <= 0 {
        kept
    } else {
        entry_put(joined(kept, started, n - 1), started[n - 1])
    }
}

/// The address that listeners have where nothing else is said.
pub open spec fn default_bind_address() -> IpAddr {
    IpAddr::V4(0x7f00_0001)
}

/// A listener that is to be started.
pub struct StartPlan {
    /// What its task is called.
    pub task_name: String,
    /// Whether its task is told of changes to the users.
    pub users_tx: bool,
}

/// Which listeners there are, and which of them run.
pub struct InboundManager {
    pub inbound_handlers: Vec<HandleEntry>,
    pub provider_handles: Vec<ProviderHandles>,
}

/// Which listeners there are, and which of them run.
pub struct ManagerView {
    pub handlers: Seq<EntryView>,
    pub providers: Seq<(Seq<char>, Seq<EntryView>)>,
}

impl View for InboundManager {
    type V = ManagerView;

    open spec fn view(&self) -> ManagerView {
        ManagerView {
            handlers: entry_views(self.inbound_handlers@),
            providers: provider_views(self.provider_handles@),
        }
    }
}

/// The listeners of the first `n` providers as they are shown.
pub open spec fn shown_providers(
    list: Seq<(Seq<char>, Seq<EntryView>)>,
    n: int,
    finished: Seq<u64>,
) -> Seq<EndpointView>
    decreases n,
{
    if n <= 0 {
        Seq::empty()
    } else {
        shown_providers(list, n - 1, finished) + shown_all(list[n - 1].1, finished)
    }
}

/// The tasks of the first `n` providers.
pub open spec fn provider_tasks(list: Seq<(Seq<char>, Seq<EntryView>)>, n: int) -> Seq<u64>
    decreases n,
{
    if n <= 0 {
        Seq::empty()
    } else {
        provider_tasks(list, n - 1) + tasks_of(list[n - 1].1, list[n - 1].1.len() as int)
    }
}

/// The providers' listeners without their tasks.
pub open spec fn stopped_providers(list: Seq<(Seq<char>, Seq<EntryView>)>) -> Seq<
    (Seq<char>, Seq<EntryView>),
> {
    list.map_values(|p: (Seq<char>, Seq<EntryView>)| (p.0, stopped(p.1)))
}

impl ManagerView {
    /// The listeners as they are shown, those of providers last.
    pub open spec fn listeners(&self, finished: Seq<u64>) -> Seq<EndpointView> {
        shown_all(self.handlers, finished) + shown_providers(
            self.providers,
            self.providers.len() as int,
            finished,
        )
    }

    /// The tasks, those of providers last.
    pub open spec fn tasks(&self) -> Seq<u64> {
        tasks_of(self.handlers, self.handlers.len() as int) + provider_tasks(
            self.providers,
            self.providers.len() as int,
        )
    }

    /// Nothing runs.
    pub open spec fn all_stopped(&self) -> ManagerView {
        ManagerView {
            handlers: stopped(self.handlers),
            providers: stopped_providers(self.providers),
        }
    }

    /// The listeners of a provider.
    pub open spec fn provider(&self, name: Seq<char>) -> Seq<EntryView> {
        let at = provider_place(self.providers, name, 0);
        if at < self.providers.len() {
            self.providers[at].1
        } else {
            Seq::empty()
        }
    }

    /// The providers without one.
    pub open spec fn without_provider(&self, name: Seq<char>) -> ManagerView {
        let at = provider_place(self.providers, name, 0);
        if at < self.providers.len() {
            ManagerView { providers: self.providers.remove(at), ..*self }
        } else {
            *self
        }
    }

    /// A provider with other listeners.
    pub open spec fn with_provider(&self, name: Seq<char>, handles: Seq<EntryView>) -> ManagerView {
        let at = provider_place(self.providers, name, 0);
        if at < self.providers.len() {
            ManagerView { providers: self.providers.update(at, (name, handles)), ..*self }
        } else {
            ManagerView { providers: self.providers.push((name, handles)), ..*self }
        }
    }
}

impl InboundManager {
    /// The listeners of a configuration, none of them running.
    pub fn new(inbounds_opt: Vec<InboundOpts>) -> (res: InboundManager)
        ensures
            res@.handlers == listed(opts_views(inbounds_opt@), inbounds_opt@.len() as int),
            res@.providers.len() == 0,
    {
        let ghost all = opts_views(inbounds_opt@);
        let total: usize = inbounds_opt.len();
        let mut left: Vec<InboundOpts> = inbounds_opt;
        let mut handlers: Vec<HandleEntry> = Vec::new();
        assert(entry_views(handlers@) =~= Seq::empty());
        let mut i: usize = 0;
        while i < total
            invariant
                i <= total,
                total == all.len(),
                opts_views(left@) == all.skip(i as int),
                entry_views(handlers@) == listed(all, i as int),
            decreases total - i,
        {
            assert(opts_views(left@).len() == left@.len());
            assert(left@[0]@ == opts_views(left@)[0]);
            let ghost rest = left@;
            let opts: InboundOpts = left.remove(0);
            assert(opts_views(left@) =~= opts_views(rest).skip(1));
            put_entry(&mut handlers, HandleEntry { opts, handle: None, users_tx: false });
            i = i + 1;
        }
        InboundManager { inbound_handlers: handlers, provider_handles: Vec::new() }
    }

    /// The ports of the plain listeners.
    pub fn get_ports(&self) -> (res: Ports)
        ensures
            res == ports_of(self@.handlers, self@.handlers.len() as int),
    {
        let ghost all = self@.handlers;
        let mut ports: Ports = Ports::default();
        let mut i: usize = 0;
        while i < self.inbound_handlers.len()
            invariant
                i <= self.inbound_handlers@.len(),
                all == entry_views(self.inbound_handlers@),
                ports == ports_of(all, i as int),
            decreases self.inbound_handlers@.len() - i,
        {
            assert(all[i as int] == self.inbound_handlers@[i as int]@);
            let opts = &self.inbound_handlers[i].opts;
            ports.put(&opts.detail, opts.common_opts.port);
            i = i + 1;
        }
        ports
    }

    /// Whether access from other machines is allowed: what the first listener says.
    pub fn get_allow_lan(&self) -> (res: bool)
        ensures
            res == (self@.handlers.len() > 0 && self@.handlers[0].opts.common.allow_lan),
    {
        if self.inbound_handlers.len() > 0 {
            assert(self@.handlers[0] == self.inbound_handlers@[0]@);
            self.inbound_handlers[0].opts.common_opts.allow_lan
        } else {
            false
        }
    }

    /// The address of the listeners: that of the first one.
    pub fn get_bind_address(&self) -> (res: IpAddr)
        ensures
            res == if self@.handlers.len() > 0 {
                self@.handlers[0].opts.common.listen
            } else {
                default_bind_address()
            },
    {
        if self.inbound_handlers.len() > 0 {
            assert(self@.handlers[0] == self.inbound_handlers@[0]@);
            self.inbound_handlers[0].opts.common_opts.listen
        } else {
            IpAddr::V4(0x7f00_0001)
        }
    }

    /// Allows access from other machines to every listener, or forbids it.
    pub fn set_allow_lan(&mut self, allow_lan: bool)
        ensures
            final(self)@.handlers == changed_all(
                old(self)@.handlers,
                old(self)@.handlers.len() as int,
                |e: EntryView| with_lan(e, allow_lan),
            ),
            final(self)@.providers == old(self)@.providers,
    {
        let ghost all = self@.handlers;
        let ghost change = |e: EntryView| with_lan(e, allow_lan);
        let total: usize = self.inbound_handlers.len();
        let mut handlers: Vec<HandleEntry> = Vec::new();
        assert(entry_views(handlers@) =~= Seq::empty());
        let mut i: usize = 0;
        while i < total
            invariant
                i <= total,
                total == all.len(),
                change == (|e: EntryView| with_lan(e, allow_lan)),
                self@.providers == old(self)@.providers,
                entry_views(self.inbound_handlers@) == all.skip(i as int),
                entry_views(handlers@) == changed_all(all, i as int, change),
            decreases total - i,
        {
            let ghost rest = self.inbound_handlers@;
            assert(entry_views(rest).len() == rest.len());
            assert(rest[0]@ == entry_views(rest)[0]);
            let mut entry: HandleEntry = self.inbound_handlers.remove(0);
            assert(entry_views(self.inbound_handlers@) =~= entry_views(rest).skip(1));
            entry.opts.common_opts.allow_lan = allow_lan;
            assert(entry@ == change(all[i as int]));
            put_entry(&mut handlers, entry);
            i = i + 1;
        }
        self.inbound_handlers = handlers;
    }

    /// Moves every listener to another address.
    pub fn set_bind_address(&mut self, bind_address: IpAddr)
        ensures
            final(self)@.handlers == changed_all(
                old(self)@.handlers,
                old(self)@.handlers.len() as int,
                |e: EntryView| with_listen(e, bind_address),
            ),
            final(self)@.providers == old(self)@.providers,
    {
        let ghost all = self@.handlers;
        let ghost change = |e: EntryView| with_listen(e, bind_address);
        let total: usize = self.inbound_handlers.len();
        let mut handlers: Vec<HandleEntry> = Vec::new();
        assert(entry_views(handlers@) =~= Seq::empty());
        let mut i: usize = 0;
        while i < total
            invariant
                i <= total,
                total == all.len(),
                change == (|e: EntryView| with_listen(e, bind_address)),
                self@.providers == old(self)@.providers,
                entry_views(self.inbound_handlers@) == all.skip(i as int),
                entry_views(handlers@) == changed_all(all, i as int, change),
            decreases total - i,
        {
            let ghost rest = self.inbound_handlers@;
            assert(entry_views(rest).len() == rest.len());
            assert(rest[0]@ == entry_views(rest)[0]);
            let mut entry: HandleEntry = self.inbound_handlers.remove(0);
            assert(entry_views(self.inbound_handlers@) =~= entry_views(rest).skip(1));
            entry.opts.common_opts.listen = bind_address;
            assert(entry@ == change(all[i as int]));
            put_entry(&mut handlers, entry);
            i = i + 1;
        }
        self.inbound_handlers = handlers;
    }

    /// Moves listeners to other ports. Tells whether any was moved, so that they have to be
    /// started again.
    pub fn change_ports(&mut self, ports: Ports) -> (res: bool)
        ensures
            ({
                let all = old(self)@.handlers;
                let n = all.len() as int;
                let movers = moving(all, n, ports);
                &&& final(self)@.handlers == moved(
                    staying(all, n, ports),
                    movers,
                    movers.len() as int,
                    ports,
                )
                &&& res == (movers.len() > 0)
            }),
            final(self)@.providers == old(self)@.providers,
    {
        let ghost all = self@.handlers;
        let total: usize = self.inbound_handlers.len();
        let mut handlers: Vec<HandleEntry> = Vec::new();
        let mut movers: Vec<HandleEntry> = Vec::new();
        assert(entry_views(handlers@) =~= Seq::empty());
        assert(entry_views(movers@) =~= Seq::empty());
        let mut i: usize = 0;
        while i < total
            invariant
                i <= total,
                total == all.len(),
                self@.providers == old(self)@.providers,
                entry_views(self.inbound_handlers@) == all.skip(i as int),
                entry_views(handlers@) == staying(all, i as int, ports),
                entry_views(movers@) == moving(all, i as int, ports),
            decreases total - i,
        {
            let ghost rest = self.inbound_handlers@;
            assert(entry_views(rest).len() == rest.len());
            assert(rest[0]@ == entry_views(rest)[0]);
            let entry: HandleEntry = self.inbound_handlers.remove(0);
            assert(entry_views(self.inbound_handlers@) =~= entry_views(rest).skip(1));
            let move_it: bool = match ports.get(&entry.opts.detail) {
                Some(port) => port != entry.opts.common_opts.port,
                None => false,
            };
            assert(move_it == moves(all[i as int], ports));
            if move_it {
                let ghost before = movers@;
                movers.push(entry);
                assert(entry_views(movers@) =~= entry_views(before).push(entry@));
            } else {
                let ghost before = handlers@;
                handlers.push(entry);
                assert(entry_views(handlers@) =~= entry_views(before).push(entry@));
            }
            i = i + 1;
        }
        let ghost start = entry_views(handlers@);
        let ghost gone = entry_views(movers@);
        let count: usize = movers.len();
        let mut k: usize = 0;
        proof {
            lemma_moving_moves(all, total as int, ports);
        }
        while k < count
            invariant
                k <= count,
                count == gone.len(),
                forall|j: int| 0 <= j < gone.len() ==> moves(#[trigger] gone[j], ports),
                entry_views(movers@) == gone.skip(k as int),
                entry_views(handlers@) == moved(start, gone, k as int, ports),
            decreases count - k,
        {
            let ghost rest = movers@;
            assert(entry_views(rest).len() == rest.len());
            assert(rest[0]@ == entry_views(rest)[0]);
            let mut entry: HandleEntry = movers.remove(0);
            assert(entry_views(movers@) =~= entry_views(rest).skip(1));
            assert(moves(gone[k as int], ports));
            if let Some(port) = ports.get(&entry.opts.detail) {
                entry.opts.common_opts.port = port;
            }
            assert(entry@ == with_port(
                gone[k as int],
                ports.of(gone[k as int].opts.detail).unwrap(),
            ));
            put_entry(&mut handlers, entry);
            k = k + 1;
        }
        self.inbound_handlers = handlers;
        count > 0
    }

    /// The listeners as they are shown, those of providers last. `finished` are the tasks that have
    /// ended.
    pub fn get_listeners(&self, finished: &Vec<u64>) -> (res: Vec<InboundEndpoint>)
        ensures
            endpoint_views(res@) == self@.listeners(finished@),
    {
        let mut out: Vec<InboundEndpoint> = Vec::new();
        assert(endpoint_views(out@) =~= Seq::empty());
        show_all(&mut out, &self.inbound_handlers, finished);
        let ghost start = endpoint_views(out@);
        let ghost all = self@.providers;
        let mut i: usize = 0;
        assert(start =~= shown_all(self@.handlers, finished@));
        assert(start + shown_providers(all, 0, finished@) =~= start);
        while i < self.provider_handles.len()
            invariant
                i <= self.provider_handles@.len(),
                all == provider_views(self.provider_handles@),
                endpoint_views(out@) == start + shown_providers(all, i as int, finished@),
            decreases self.provider_handles@.len() - i,
        {
            assert(all[i as int].1 == entry_views(self.provider_handles@[i as int].handles@));
            show_all(&mut out, &self.provider_handles[i].handles, finished);
            assert(start + shown_providers(all, i as int, finished@) + shown_all(
                all[i as int].1,
                finished@,
            ) =~= start + shown_providers(all, i + 1, finished@));
            i = i + 1;
        }
        out
    }

    /// How the task of a listener is to be started.
    pub fn start_plan(&self, place: usize) -> (res: StartPlan)
        requires
            place < self@.handlers.len(),
        ensures
            res.task_name@ == "inbound_"@ + self@.handlers[place as int].opts.common.name,
            res.users_tx == opts::has_users(self@.handlers[place as int].opts.detail),
    {
        assert(self@.handlers[place as int] == self.inbound_handlers@[place as int]@);
        let opts = &self.inbound_handlers[place].opts;
        StartPlan {
            task_name: text::concat("inbound_", opts.common_opts.name.as_str()),
            users_tx: opts.takes_users(),
        }
    }

    /// Takes note of the task of a listener; `None` where there is none to run.
    pub fn started(&mut self, place: usize, handle: Option<u64>)
        requires
            place < old(self)@.handlers.len(),
        ensures
            final(self)@.handlers == old(self)@.handlers.update(
                place as int,
                EntryView {
                    handle,
                    users_tx: opts::has_users(old(self)@.handlers[place as int].opts.detail),
                    ..old(self)@.handlers[place as int]
                },
            ),
            final(self)@.providers == old(self)@.providers,
    {
        let ghost before = self@.handlers;
        assert(before[place as int] == self.inbound_handlers@[place as int]@);
        let users_tx: bool = self.inbound_handlers[place].opts.takes_users();
        self.inbound_handlers[place].handle = handle;
        self.inbound_handlers[place].users_tx = users_tx;
        assert(self@.handlers =~= before.update(
            place as int,
            EntryView { handle, users_tx, ..before[place as int] },
        ));
    }

    /// Takes every task away, to be stopped in this order.
    pub fn stop_all_listeners(&mut self) -> (res: Vec<u64>)
        ensures
            res@ == old(self)@.tasks(),
            final(self)@ == old(self)@.all_stopped(),
    {
        let mut out: Vec<u64> = Vec::new();
        take_tasks(&mut out, &mut self.inbound_handlers);
        let ghost all = old(self)@.providers;
        let ghost start = out@;
        assert(start =~= tasks_of(old(self)@.handlers, old(self)@.handlers.len() as int));
        let ghost halted = entry_views(self.inbound_handlers@);
        let mut i: usize = 0;
        assert(start + provider_tasks(all, 0) =~= start);
        while i < self.provider_handles.len()
            invariant
                i <= self.provider_handles@.len(),
                self.provider_handles@.len() == all.len(),
                entry_views(self.inbound_handlers@) == halted,
                out@ == start + provider_tasks(all, i as int),
                forall|j: int|
                    0 <= j < i ==> (#[trigger] self.provider_handles@[j]).name@ == all[j].0
                        && entry_views(self.provider_handles@[j].handles@) == stopped(all[j].1),
                forall|j: int|
                    i <= j < all.len() ==> (#[trigger] self.provider_handles@[j]).name@ == all[j].0
                        && entry_views(self.provider_handles@[j].handles@) == all[j].1,
            decreases self.provider_handles@.len() - i,
        {
            let ghost before = self.provider_handles@;
            assert(entry_views(before[i as int].handles@) == all[i as int].1);
            take_tasks(&mut out, &mut self.provider_handles[i].handles);
            assert(out@ =~= start + provider_tasks(all, i + 1));
            i = i + 1;
        }
        assert(provider_views(self.provider_handles@) =~= stopped_providers(all));
        out
    }

    /// What is to be done when a provider's listeners change. The provider's old ones are taken
    /// away.
    pub fn update_provider(&mut self, provider: &str, new_opts: Vec<InboundOpts>) -> (res: ProviderPlan)
        ensures
            res@ == reconciled(
                old(self)@.provider(provider@),
                opts_views(new_opts@),
                new_opts@.len() as int,
            ),
            final(self)@ == old(self)@.without_provider(provider@),
    {
        let ghost start = self@;
        let at: usize = find_provider(&self.provider_handles, provider);
        let mut removed: Vec<HandleEntry> = Vec::new();
        assert(entry_views(removed@) =~= Seq::empty());
        if at < self.provider_handles.len() {
            assert(start.providers[at as int].1 == entry_views(
                self.provider_handles@[at as int].handles@,
            ));
            let ghost before = self.provider_handles@;
            let taken: ProviderHandles = self.provider_handles.remove(at);
            assert(provider_views(self.provider_handles@) =~= provider_views(before).remove(
                at as int,
            ));
            removed = taken.handles;
        }
        let ghost old_handles = start.provider(provider@);
        assert(entry_views(removed@) == old_handles);
        let ghost all = opts_views(new_opts@);
        let total: usize = new_opts.len();
        let mut left: Vec<InboundOpts> = new_opts;
        let mut kept: Vec<HandleEntry> = Vec::new();
        let mut told: Vec<usize> = Vec::new();
        let mut added: Vec<InboundOpts> = Vec::new();
        assert(entry_views(kept@) =~= Seq::empty());
        assert(places(told@) =~= Seq::empty());
        assert(opts_views(added@) =~= Seq::empty());
        let mut i: usize = 0;
        while i < total
            invariant
                i <= total,
                total == all.len(),
                self@ == start.without_provider(provider@),
                opts_views(left@) == all.skip(i as int),
                entry_views(kept@) == reconciled(old_handles, all, i as int).kept,
                places(told@) == reconciled(old_handles, all, i as int).told,
                entry_views(removed@) == reconciled(old_handles, all, i as int).removed,
                opts_views(added@) == reconciled(old_handles, all, i as int).added,
            decreases total - i,
        {
            let ghost rest = left@;
            assert(opts_views(rest).len() == rest.len());
            assert(rest[0]@ == opts_views(rest)[0]);
            let opts: InboundOpts = left.remove(0);
            assert(opts_views(left@) =~= opts_views(rest).skip(1));
            assert(opts@ == all[i as int]);
            let at: usize = find_entry(&removed, &opts);
            if at < removed.len() {
                let ghost before = removed@;
                assert(entry_views(before)[at as int] == before[at as int]@);
                let entry: HandleEntry = removed.remove(at);
                assert(entry_views(removed@) =~= entry_views(before).remove(at as int));
                if opts.takes_users() && entry.users_tx {
                    let ghost seen = told@;
                    told.push(kept.len());
                    assert(places(told@) =~= places(seen).push(kept@.len() as int));
                }
                let ghost had = kept@;
                let next = HandleEntry {
                    opts,
                    handle: entry.handle,
                    users_tx: entry.users_tx,
                };
                kept.push(next);
                assert(entry_views(kept@) =~= entry_views(had).push(next@));
            } else {
                let ghost had = added@;
                added.push(opts);
                assert(opts_views(added@) =~= opts_views(had).push(opts@));
            }
            i = i + 1;
        }
        ProviderPlan { kept, told, removed, added }
    }

    /// How the task of a provider's listener is to be started.
    pub fn provider_start_plan(opts: &InboundOpts) -> (res: StartPlan)
        ensures
            res.task_name@ == "provider_inbound_"@ + opts@.common.name,
            res.users_tx == opts::has_users(opts@.detail),
    {
        StartPlan {
            task_name: text::concat("provider_inbound_", opts.common_opts.name.as_str()),
            users_tx: opts.takes_users(),
        }
    }

    /// Takes note of a provider's listeners: those that ran on, and those that were started.
    pub fn finish_update(
        &mut self,
        provider: &str,
        kept: Vec<HandleEntry>,
        started: Vec<HandleEntry>,
    )
        ensures
            final(self)@ == old(self)@.with_provider(
                provider@,
                joined(entry_views(kept@), entry_views(started@), started@.len() as int),
            ),
    {
        let ghost start = self@;
        let ghost all = entry_views(started@);
        let ghost first = entry_views(kept@);
        let total: usize = started.len();
        let mut left: Vec<HandleEntry> = started;
        let mut handles: Vec<HandleEntry> = kept;
        let mut i: usize = 0;
        while i < total
            invariant
                i <= total,
                total == all.len(),
                self@ == start,
                entry_views(left@) == all.skip(i as int),
                entry_views(handles@) == joined(first, all, i as int),
            decreases total - i,
        {
            let ghost rest = left@;
            assert(entry_views(rest).len() == rest.len());
            assert(rest[0]@ == entry_views(rest)[0]);
            let entry: HandleEntry = left.remove(0);
            assert(entry_views(left@) =~= entry_views(rest).skip(1));
            put_entry(&mut handles, entry);
            i = i + 1;
        }
        let at: usize = find_provider(&self.provider_handles, provider);
        let ghost before = self.provider_handles@;
        let ghost view = entry_views(handles@);
        let entry = ProviderHandles { name: provider.to_owned(), handles };
        if at < self.provider_handles.len() {
            self.provider_handles.set(at, entry);
            assert(provider_views(self.provider_handles@) =~= provider_views(before).update(
                at as int,
                (provider@, view),
            ));
        } else {
            self.provider_handles.push(entry);
            assert(provider_views(self.provider_handles@) =~= provider_views(before).push(
                (provider@, view),
            ));
        }
    }
}

proof fn lemma_moving_moves(list: Seq<EntryView>, n: int, ports: Ports)
    ensures
        forall|j: int|
            0 <= j < moving(list, n, ports).len() ==> moves(
                #[trigger] moving(list, n, ports)[j],
                ports,
            ),
    decreases n,
{
    if n > 0 {
        lemma_moving_moves(list, n - 1, ports);
        let before = moving(list, n - 1, ports);
        let after = moving(list, n, ports);
        assert forall|j: int| 0 <= j < after.len() implies moves(#[trigger] after[j], ports) by {
            if j < before.len() {
                assert(after[j] == before[j]);
            }
        }
    }
}

/// Once everything was stopped, nothing runs.
pub proof fn law_stopped_runs_nothing(m: ManagerView, finished: Seq<u64>)
    ensures
        m.all_stopped().tasks().len() == 0,
        forall|i: int|
            0 <= i < shown_all(m.all_stopped().handlers, finished).len() ==> !(#[trigger] shown_all(
                m.all_stopped().handlers,
                finished,
            )[i]).active,
{
    let after = m.all_stopped();
    lemma_no_tasks(m.handlers, after.handlers.len() as int);
    lemma_no_provider_tasks(m.providers, after.providers.len() as int);
}

proof fn lemma_no_tasks(list: Seq<EntryView>, n: int)
    requires
        n <= list.len(),
    ensures
        tasks_of(stopped(list), n).len() == 0,
    decreases n,
{
    if n > 0 {
        lemma_no_tasks(list, n - 1);
    }
}

proof fn lemma_no_provider_tasks(list: Seq<(Seq<char>, Seq<EntryView>)>, n: int)
    requires
        n <= list.len(),
    ensures
        provider_tasks(stopped_providers(list), n).len() == 0,
    decreases n,
{
    if n > 0 {
        lemma_no_provider_tasks(list, n - 1);
        lemma_no_tasks(list[n - 1].1, list[n - 1].1.len() as int);
    }
}

/// A provider that gives the listeners that it already has starts none and stops none; each runs on
/// under its task.
pub proof fn law_same_listeners_run_on(list: Seq<EntryView>, n: int)
    requires
        0 <= n <= list.len(),
    ensures
        ({
            let opts = list.map_values(|e: EntryView| e.opts);
            let plan = reconciled(list, opts, n);
            &&& plan.kept == list.take(n)
            &&& plan.removed == list.skip(n)
            &&& plan.added.len() == 0
        }),
    decreases n,
{
    let opts = list.map_values(|e: EntryView| e.opts);
    if n > 0 {
        law_same_listeners_run_on(list, n - 1);
        let before = reconciled(list, opts, n - 1);
        assert(before.removed[0] == list[n - 1]);
        assert(place_of(before.removed, opts[n - 1], 0) == 0);
        assert(before.removed.remove(0) =~= list.skip(n));
        assert(list.take(n - 1).push(list[n - 1]) =~= list.take(n));
    } else {
        assert(list.skip(0) =~= list);
        assert(list.take(0) =~= Seq::empty());
    }
}

/// Of a provider's listeners none is lost: each old one runs on or is stopped, and each new one
/// runs on or is started.
pub proof fn law_no_listener_is_lost(old_handles: Seq<EntryView>, new_opts: Seq<OptsView>, n: int)
    requires
        0 <= n <= new_opts.len(),
    ensures
        ({
            let plan = reconciled(old_handles, new_opts, n);
            &&& plan.kept.len() + plan.removed.len() == old_handles.len()
            &&& plan.kept.len() + plan.added.len() == n
        }),
    decreases n,
{
    if n > 0 {
        law_no_listener_is_lost(old_handles, new_opts, n - 1);
        let before = reconciled(old_handles, new_opts, n - 1);
        lemma_place_bounds(before.removed, new_opts[n - 1], 0);
    }
}

proof fn lemma_place_bounds(list: Seq<EntryView>, key: OptsView, from: int)
    requires
        0 <= from <= list.len(),
    ensures
        from <= place_of(list, key, from) <= list.len(),
        place_of(list, key, from) < list.len() ==> opts::same_listener(
            list[place_of(list, key, from)].opts,
            key,
        ),
    decreases list.len() - from,
{
    if from < list.len() && !opts::same_listener(list[from].opts, key) {
        lemma_place_bounds(list, key, from + 1);
    }
}

/// Every listener whose type has a port has that port.
pub open spec fn on_ports(list: Seq<EntryView>, ports: Ports) -> bool {
    forall|i: int| 0 <= i < list.len() ==> !moves(#[trigger] list[i], ports)
}

proof fn lemma_staying_on_ports(list: Seq<EntryView>, n: int, ports: Ports)
    ensures
        on_ports(staying(list, n, ports), ports),
    decreases n,
{
    if n > 0 {
        lemma_staying_on_ports(list, n - 1, ports);
        let before = staying(list, n - 1, ports);
        let after = staying(list, n, ports);
        assert forall|j: int| 0 <= j < after.len() implies !moves(#[trigger] after[j], ports) by {
            if j < before.len() {
                assert(after[j] == before[j]);
            }
        }
    }
}

proof fn lemma_moved_on_ports(start: Seq<EntryView>, list: Seq<EntryView>, n: int, ports: Ports)
    requires
        on_ports(start, ports),
        0 <= n <= list.len(),
        forall|j: int| 0 <= j < list.len() ==> moves(#[trigger] list[j], ports),
    ensures
        on_ports(moved(start, list, n, ports), ports),
    decreases n,
{
    if n > 0 {
        lemma_moved_on_ports(start, list, n - 1, ports);
        let before = moved(start, list, n - 1, ports);
        let e = list[n - 1];
        assert(moves(e, ports));
        let entry = with_port(e, ports.of(e.opts.detail).unwrap());
        lemma_place_bounds(before, entry.opts, 0);
        let after = entry_put(before, entry);
        assert forall|j: int| 0 <= j < after.len() implies !moves(#[trigger] after[j], ports) by {
            if j < before.len() {
                assert(!moves(before[j], ports));
            }
        }
    }
}

/// Once ports were changed, every listener whose type has a port has that port, and changing them
/// once more moves none.
pub proof fn law_ports_are_changed(all: Seq<EntryView>, ports: Ports)
    ensures
        ({
            let n = all.len() as int;
            let movers = moving(all, n, ports);
            let after = moved(staying(all, n, ports), movers, movers.len() as int, ports);
            on_ports(after, ports) && moving(after, after.len() as int, ports).len() == 0
        }),
{
    let n = all.len() as int;
    let movers = moving(all, n, ports);
    lemma_moving_moves(all, n, ports);
    lemma_staying_on_ports(all, n, ports);
    lemma_moved_on_ports(staying(all, n, ports), movers, movers.len() as int, ports);
    let after = moved(staying(all, n, ports), movers, movers.len() as int, ports);
    lemma_none_moves(after, after.len() as int, ports);
}

proof fn lemma_none_moves(list: Seq<EntryView>, n: int, ports: Ports)
    requires
        on_ports(list, ports),
        n <= list.len(),
    ensures
        moving(list, n, ports).len() == 0,
    decreases n,
{
    if n > 0 {
        lemma_none_moves(list, n - 1, ports);
        assert(!moves(list[n - 1], ports));
    }
}

/// Where a provider's listeners are written down, as a configuration writes it.
#[derive(Debug)]
pub enum InboundProviderDef {
    Http { url: String, path: Option<String>, interval: u64 },
    File { path: String, interval: Option<u64> },
}

/// Where a provider's listeners are got from.
#[derive(Debug)]
pub enum ProviderSource {
    Http { uri: String, path: String, interval: u64 },
    File { path: String, interval: u64 },
}

/// Where a provider's listeners are got from.
pub enum SourceView {
    Http { uri: Seq<char>, path: Seq<char>, interval: u64 },
    File { path: Seq<char>, interval: u64 },
}

impl View for ProviderSource {
    type V = SourceView;

    open spec fn view(&self) -> SourceView {
        match self {
            ProviderSource::Http { uri, path, interval } => SourceView::Http {
                uri: uri@,
                path: path@,
                interval: *interval,
            },
            ProviderSource::File { path, interval } => SourceView::File {
                path: path@,
                interval: *interval,
            },
        }
    }
}

/// Where a provider's listeners are got from; `None` where the URL cannot be read. Where no path is
/// given, the file is called by the digest of the URL. Files are not read again unless an interval
/// says so.
pub open spec fn source_of(def: InboundProviderDef, digest: Seq<char>) -> Option<SourceView> {
    match def {
        InboundProviderDef::Http { url, path, interval } => match uri::uri_text(url@) {
            Some(uri) => Some(
                SourceView::Http {
                    uri,
                    path: match path {
                        Some(p) if text::trimmed(p@).len() > 0 => p@,
                        _ => "inbound_providers/"@ + digest,
                    },
                    interval,
                },
            ),
            None => None,
        },
        InboundProviderDef::File { path, interval } => Some(
            SourceView::File {
                path: path@,
                interval: match interval {
                    Some(secs) => secs,
                    None => 0,
                },
            },
        ),
    }
}

/// Where a provider's listeners are got from. `digest` is the digest of the URL.
pub fn load_inbound_provider(def: &InboundProviderDef, digest: &str) -> (res: Option<ProviderSource>)
    ensures
        match (res, source_of(*def, digest@)) {
            (Some(a), Some(b)) => a@ == b,
            (None, None) => true,
            _ => false,
        },
{
    match def {
        InboundProviderDef::Http { url, path, interval } => {
            let uri: String = match parse_uri(url.as_str()) {
                Some(uri) => uri,
                None => return None,
            };
            let path: String = match path {
                Some(p) => {
                    let written: Vec<char> = text::trim(&text::chars(p.as_str()));
                    if written.len() > 0 {
                        p.clone()
                    } else {
                        text::concat("inbound_providers/", digest)
                    }
                },
                None => text::concat("inbound_providers/", digest),
            };
            Some(ProviderSource::Http { uri, path, interval: *interval })
        },
        InboundProviderDef::File { path, interval } => {
            let secs: u64 = match interval {
                Some(secs) => *secs,
                None => 0,
            };
            Some(ProviderSource::File { path: path.clone(), interval: secs })
        },
    }
}

/// A port that is set for a type of listener is read back for it, whatever its other options, and the
/// other types keep theirs.
pub proof fn law_port_read_back(ports: Ports, d: opts::DetailView, port: u16, other: opts::DetailView)
    requires
        d is Http || d is Socks || d is Mixed || d is TProxy || d is Redir,
    ensures
        one_kind(d, other) ==> ports.with(d, port).of(other) == Some(port),
        !one_kind(d, other) ==> ports.with(d, port).of(other) == ports.of(other),
{
}

/// Two listeners are of one type.
pub open spec fn one_kind(a: opts::DetailView, b: opts::DetailView) -> bool {
    ||| a is Http && b is Http
    ||| a is Socks && b is Socks
    ||| a is Mixed && b is Mixed
    ||| a is TProxy && b is TProxy
    ||| a is Redir && b is Redir
    ||| a is Tunnel && b is Tunnel
    ||| a is Shadowsocks && b is Shadowsocks
    ||| a is Anytls && b is Anytls
}

/// The port that is told for a type is that of the last listener of the type.
pub proof fn law_last_port_is_told(list: Seq<EntryView>, i: int, n: int)
    requires
        0 <= i < n <= list.len(),
        list[i].opts.detail is Http || list[i].opts.detail is Socks || list[i].opts.detail is Mixed
            || list[i].opts.detail is TProxy || list[i].opts.detail is Redir,
        forall|j: int|
            i < j < n ==> !one_kind((#[trigger] list[j]).opts.detail, list[i].opts.detail),
    ensures
        ports_of(list, n).of(list[i].opts.detail) == Some(list[i].opts.common.port),
    decreases n,
{
    if n > i + 1 {
        law_last_port_is_told(list, i, n - 1);
        assert(!one_kind(list[n - 1].opts.detail, list[i].opts.detail));
    }
}

/// No port is told for a type without a listener.
pub proof fn law_no_listener_no_port(list: Seq<EntryView>, n: int, d: opts::DetailView)
    requires
        0 <= n <= list.len(),
        forall|j: int| 0 <= j < n ==> !one_kind((#[trigger] list[j]).opts.detail, d),
    ensures
        ports_of(list, n).of(d) is None,
    decreases n,
{
    if n > 0 {
        law_no_listener_no_port(list, n - 1, d);
        assert(!one_kind(list[n - 1].opts.detail, d));
    }
}

proof fn lemma_entry_put(list: Seq<EntryView>, entry: EntryView)
    ensures
        list.len() <= entry_put(list, entry).len() <= list.len() + 1,
        forall|i: int|
            0 <= i < list.len() ==> (#[trigger] entry_put(list, entry)[i]).opts == list[i].opts,
        exists|i: int|
            0 <= i < entry_put(list, entry).len() && opts::same_listener(
                (#[trigger] entry_put(list, entry)[i]).opts,
                entry.opts,
            ) && entry_put(list, entry)[i].handle == entry.handle,
        entry_put(list, entry).len() > list.len() ==> entry_put(list, entry).last() == entry,
{
    let at = place_of(list, entry.opts, 0);
    lemma_place_bounds(list, entry.opts, 0);
    let after = entry_put(list, entry);
    assert(opts::same_listener(after[at].opts, entry.opts) && after[at].handle == entry.handle);
}

/// Once it is said whether the local network may connect, that holds of every listener, and every
/// listener that was there is there with that alone changed.
pub proof fn law_lan_is_set_for_all(list: Seq<EntryView>, n: int, allow_lan: bool, after: Seq<EntryView>)
    requires
        0 <= n <= list.len(),
        after == changed_all(list, n, |e: EntryView| with_lan(e, allow_lan)),
    ensures
        after.len() <= n,
        forall|i: int| 0 <= i < after.len() ==> (#[trigger] after[i]).opts.common.allow_lan == allow_lan,
        forall|k: int|
            0 <= k < n ==> exists|i: int|
                0 <= i < after.len() && (#[trigger] after[i]).opts.detail == (
                #[trigger] list[k]).opts.detail && after[i].opts.common == (opts::CommonView {
                    allow_lan,
                    ..list[k].opts.common
                }),
    decreases n,
{
    let change = |e: EntryView| with_lan(e, allow_lan);
    if n > 0 {
        let before = changed_all(list, n - 1, change);
        law_lan_is_set_for_all(list, n - 1, allow_lan, before);
        lemma_entry_put(before, change(list[n - 1]));
        assert forall|k: int| 0 <= k < n implies exists|i: int|
            0 <= i < after.len() && (#[trigger] after[i]).opts.detail == (
            #[trigger] list[k]).opts.detail && after[i].opts.common == (opts::CommonView {
                allow_lan,
                ..list[k].opts.common
            }) by {
            if k < n - 1 {
                let i = choose|i: int|
                    0 <= i < before.len() && (#[trigger] before[i]).opts.detail
                        == list[k].opts.detail && before[i].opts.common == (opts::CommonView {
                        allow_lan,
                        ..list[k].opts.common
                    });
                assert(after[i].opts == before[i].opts);
            } else {
                let i = choose|i: int|
                    0 <= i < after.len() && opts::same_listener(
                        (#[trigger] after[i]).opts,
                        change(list[n - 1]).opts,
                    );
                assert(after[i].opts.detail == list[k].opts.detail);
            }
        }
        assert forall|i: int| 0 <= i < after.len() implies (
        #[trigger] after[i]).opts.common.allow_lan == allow_lan by {
            if i < before.len() {
                assert(after[i].opts == before[i].opts);
            }
        }
    }
}

/// Once an address to listen on is set, every listener listens there, and every listener that was
/// there is there with that alone changed.
pub proof fn law_address_is_set_for_all(
    list: Seq<EntryView>,
    n: int,
    listen: IpAddr,
    after: Seq<EntryView>,
)
    requires
        0 <= n <= list.len(),
        after == changed_all(list, n, |e: EntryView| with_listen(e, listen)),
    ensures
        after.len() <= n,
        forall|i: int| 0 <= i < after.len() ==> (#[trigger] after[i]).opts.common.listen == listen,
        forall|k: int|
            0 <= k < n ==> exists|i: int|
                0 <= i < after.len() && (#[trigger] after[i]).opts.detail == (
                #[trigger] list[k]).opts.detail && after[i].opts.common == (opts::CommonView {
                    listen,
                    ..list[k].opts.common
                }),
    decreases n,
{
    let change = |e: EntryView| with_listen(e, listen);
    if n > 0 {
        let before = changed_all(list, n - 1, change);
        law_address_is_set_for_all(list, n - 1, listen, before);
        lemma_entry_put(before, change(list[n - 1]));
        assert forall|k: int| 0 <= k < n implies exists|i: int|
            0 <= i < after.len() && (#[trigger] after[i]).opts.detail == (
            #[trigger] list[k]).opts.detail && after[i].opts.common == (opts::CommonView {
                listen,
                ..list[k].opts.common
            }) by {
            if k < n - 1 {
                let i = choose|i: int|
                    0 <= i < before.len() && (#[trigger] before[i]).opts.detail
                        == list[k].opts.detail && before[i].opts.common == (opts::CommonView {
                        listen,
                        ..list[k].opts.common
                    });
                assert(after[i].opts == before[i].opts);
            } else {
                let i = choose|i: int|
                    0 <= i < after.len() && opts::same_listener(
                        (#[trigger] after[i]).opts,
                        change(list[n - 1]).opts,
                    );
                assert(after[i].opts.detail == list[k].opts.detail);
            }
        }
        assert forall|i: int| 0 <= i < after.len() implies (#[trigger] after[i]).opts.common.listen
            == listen by {
            if i < before.len() {
                assert(after[i].opts == before[i].opts);
            }
        }
    }
}

proof fn lemma_none_before(list: Seq<EntryView>, key: OptsView, from: int)
    requires
        0 <= from <= list.len(),
    ensures
        forall|i: int|
            from <= i < place_of(list, key, from) && i < list.len() ==> !opts::same_listener(
                (#[trigger] list[i]).opts,
                key,
            ),
    decreases list.len() - from,
{
    if from < list.len() && !opts::same_listener(list[from].opts, key) {
        lemma_none_before(list, key, from + 1);
    }
}

/// A listener that runs on keeps its task and has the options it should have now, users among them;
/// it is told of them where it takes users and can be told. What is started is none of what is
/// stopped.
pub proof fn law_update_keeps_what_it_can(
    old_handles: Seq<EntryView>,
    new_opts: Seq<OptsView>,
    n: int,
    plan: PlanView,
)
    requires
        0 <= n <= new_opts.len(),
        plan == reconciled(old_handles, new_opts, n),
    ensures
        forall|i: int|
            0 <= i < plan.kept.len() ==> {
                &&& exists|j: int| 0 <= j < n && (#[trigger] plan.kept[i]).opts == new_opts[j]
                &&& exists|m: int|
                    0 <= m < old_handles.len() && opts::same_listener(
                        (#[trigger] old_handles[m]).opts,
                        plan.kept[i].opts,
                    ) && old_handles[m].handle == plan.kept[i].handle && old_handles[m].users_tx
                        == plan.kept[i].users_tx
            },
        forall|i: int|
            0 <= i < plan.kept.len() ==> (#[trigger] plan.told.contains(i) <==> opts::has_users(
                plan.kept[i].opts.detail,
            ) && plan.kept[i].users_tx),
        forall|i: int, j: int|
            0 <= i < plan.added.len() && 0 <= j < plan.removed.len() ==> !opts::same_listener(
                (#[trigger] plan.removed[j]).opts,
                #[trigger] plan.added[i],
            ),
        forall|j: int|
            0 <= j < plan.removed.len() ==> old_handles.contains(#[trigger] plan.removed[j]),
        forall|t: int| 0 <= t < plan.told.len() ==> 0 <= #[trigger] plan.told[t] < plan.kept.len(),
    decreases n,
{
    if n > 0 {
        let before = reconciled(old_handles, new_opts, n - 1);
        law_update_keeps_what_it_can(old_handles, new_opts, n - 1, before);
        let opts = new_opts[n - 1];
        let at = place_of(before.removed, opts, 0);
        lemma_place_bounds(before.removed, opts, 0);
        lemma_none_before(before.removed, opts, 0);
        if at < before.removed.len() {
            let entry = before.removed[at];
            let last = before.kept.len() as int;
            assert(old_handles.contains(entry));
            let m = choose|m: int| 0 <= m < old_handles.len() && old_handles[m] == entry;
            assert(opts::same_listener(old_handles[m].opts, opts));
            assert forall|i: int| 0 <= i < plan.kept.len() implies {
                &&& exists|j: int| 0 <= j < n && (#[trigger] plan.kept[i]).opts == new_opts[j]
                &&& exists|m: int|
                    0 <= m < old_handles.len() && opts::same_listener(
                        (#[trigger] old_handles[m]).opts,
                        plan.kept[i].opts,
                    ) && old_handles[m].handle == plan.kept[i].handle && old_handles[m].users_tx
                        == plan.kept[i].users_tx
            } by {
                if i < last {
                    assert(plan.kept[i] == before.kept[i]);
                    let j = choose|j: int| 0 <= j < n - 1 && before.kept[i].opts == new_opts[j];
                    assert(0 <= j < n && plan.kept[i].opts == new_opts[j]);
                } else {
                    assert(plan.kept[i].opts == new_opts[n - 1]);
                }
            }
            assert forall|i: int| 0 <= i < plan.kept.len() implies (
            #[trigger] plan.told.contains(i) <==> opts::has_users(plan.kept[i].opts.detail)
                && plan.kept[i].users_tx) by {
                if i < last {
                    assert(plan.kept[i] == before.kept[i]);
                    if before.told.contains(i) {
                        let t = choose|t: int| 0 <= t < before.told.len() && before.told[t] == i;
                        assert(plan.told[t] == i);
                    }
                    if plan.told.contains(i) {
                        let t = choose|t: int| 0 <= t < plan.told.len() && plan.told[t] == i;
                        assert(t < before.told.len());
                        assert(before.told[t] == i);
                    }
                    assert(before.told.contains(i) == plan.told.contains(i));
                } else {
                    if opts::has_users(opts.detail) && entry.users_tx {
                        assert(plan.told[before.told.len() as int] == i);
                    } else if plan.told.contains(i) {
                        let t = choose|t: int| 0 <= t < plan.told.len() && plan.told[t] == i;
                        assert(before.told[t] == last);
                    }
                }
            }
            assert forall|j: int| 0 <= j < plan.removed.len() implies before.removed.contains(
                #[trigger] plan.removed[j],
            ) by {
                let k = if j < at {
                    j
                } else {
                    j + 1
                };
                assert(before.removed[k] == plan.removed[j]);
            }
            assert forall|i: int, j: int|
                0 <= i < plan.added.len() && 0 <= j < plan.removed.len() implies !opts::same_listener(
                (#[trigger] plan.removed[j]).opts,
                #[trigger] plan.added[i],
            ) by {
                let k = if j < at {
                    j
                } else {
                    j + 1
                };
                assert(before.removed[k] == plan.removed[j]);
            }
        } else {
            assert forall|i: int, j: int|
                0 <= i < plan.added.len() && 0 <= j < plan.removed.len() implies !opts::same_listener(
                (#[trigger] plan.removed[j]).opts,
                #[trigger] plan.added[i],
            ) by {
                if i < before.added.len() {
                    assert(plan.added[i] == before.added[i]);
                }
            }
            assert forall|i: int| 0 <= i < plan.kept.len() implies exists|j: int|
                0 <= j < n && (#[trigger] plan.kept[i]).opts == new_opts[j] by {
                let j = choose|j: int| 0 <= j < n - 1 && before.kept[i].opts == new_opts[j];
                assert(0 <= j < n && plan.kept[i].opts == new_opts[j]);
            }
        }
    }
}

/// What is shown of a listener is its name, type and port, and that it is active as long as its task
/// runs: there is one and it has not ended.
pub proof fn law_what_is_shown(m: ManagerView, finished: Seq<u64>, i: int)
    requires
        0 <= i < m.handlers.len(),
    ensures
        m.listeners(finished)[i].name == m.handlers[i].opts.common.name,
        m.listeners(finished)[i].port == m.handlers[i].opts.common.port,
        m.listeners(finished)[i].inbound_type == opts::type_text(m.handlers[i].opts.detail),
        m.handlers[i].handle is None ==> !m.listeners(finished)[i].active,
        m.handlers[i].handle matches Some(task) ==> (m.listeners(finished)[i].active
            <==> !finished.contains(task)),
{
}

/// A provider's source is read: a file as it is named, with no interval where none is given, and a
/// URI that can be read. What comes from a URI is kept where it is said, unless nothing is said.
pub proof fn law_provider_source(def: InboundProviderDef, digest: Seq<char>)
    ensures
        match (def, source_of(def, digest)) {
            (InboundProviderDef::File { path, interval }, Some(SourceView::File { path: p, interval: i })) => {
                p == path@ && (interval is None ==> i == 0) && (interval matches Some(secs) ==> i
                    == secs)
            },
            (InboundProviderDef::Http { url, path, interval }, Some(SourceView::Http { uri, path: p, interval: i })) => {
                &&& uri::uri_text(url@) == Some(uri)
                &&& i == interval
                &&& path is None ==> text::has_suffix(p, digest)
                &&& path matches Some(given) ==> (if text::trimmed(given@).len() > 0 {
                    p == given@
                } else {
                    text::has_suffix(p, digest)
                })
            },
            (InboundProviderDef::Http { url, .. }, None) => uri::uri_text(url@) is None,
            _ => false,
        },
{
    let kept = "inbound_providers/"@ + digest;
    assert(kept.skip(kept.len() - digest.len()) =~= digest);
}

/// Every configured listener is listed once, however often it is configured, and none runs yet.
pub proof fn law_listeners_are_listed_once(all: Seq<OptsView>, n: int, list: Seq<EntryView>)
    requires
        0 <= n <= all.len(),
        list == listed(all, n),
    ensures
        forall|i: int| 0 <= i < list.len() ==> (#[trigger] list[i]).handle is None,
        forall|k: int|
            0 <= k < n ==> exists|i: int|
                0 <= i < list.len() && opts::same_listener(
                    (#[trigger] list[i]).opts,
                    #[trigger] all[k],
                ),
        forall|i: int, j: int|
            0 <= i < j < list.len() ==> !opts::same_listener(
                (#[trigger] list[i]).opts,
                (#[trigger] list[j]).opts,
            ),
    decreases n,
{
    if n > 0 {
        let before = listed(all, n - 1);
        let entry = EntryView { opts: all[n - 1], handle: None, users_tx: false };
        law_listeners_are_listed_once(all, n - 1, before);
        lemma_entry_put(before, entry);
        lemma_place_bounds(before, entry.opts, 0);
        lemma_none_before(before, entry.opts, 0);
        assert forall|k: int| 0 <= k < n implies exists|i: int|
            0 <= i < list.len() && opts::same_listener(
                (#[trigger] list[i]).opts,
                #[trigger] all[k],
            ) by {
            if k < n - 1 {
                let i = choose|i: int|
                    0 <= i < before.len() && opts::same_listener(
                        (#[trigger] before[i]).opts,
                        all[k],
                    );
                assert(list[i].opts == before[i].opts);
            }
        }
        assert forall|i: int, j: int| 0 <= i < j < list.len() implies !opts::same_listener(
            (#[trigger] list[i]).opts,
            (#[trigger] list[j]).opts,
        ) by {
            assert(list[i].opts == before[i].opts);
            if j < before.len() {
                assert(list[j].opts == before[j].opts);
            } else {
                assert(place_of(before, entry.opts, 0) == before.len());
                assert(!opts::same_listener(before[i].opts, entry.opts));
            }
        }
    }
}

} // verus!
