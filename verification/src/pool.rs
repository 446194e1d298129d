//! The backend pool: which backends are configured, which are connected and
//! with what tools, and how tool calls and listings are routed over them.
use std::sync::Arc;

use dashmap::DashMap;
use rmcp::model::Tool;
use vstd::prelude::*;

use crate::config::BackendConfig;
use crate::error::GatewayError;
use crate::name_map::{names_of, NameMap};
use crate::text::{
    chars_lt, chars_of, lemma_seq_lt_irreflexive, lemma_seq_lt_transitive, seq_lt, string_views,
    text_eq,
};

verus! {

broadcast use vstd::seq_lib::group_to_multiset_ensures;

/// `dashmap::DashMap`, opaque: what a table holds is known only through
/// `live_table` and the `table_*` wrappers below.
#[verifier::external_type_specification]
#[verifier::external_body]
#[verifier::reject_recursive_types(K)]
#[verifier::reject_recursive_types(V)]
#[verifier::reject_recursive_types(S)]
pub struct ExDashMap<K, V, S>(DashMap<K, V, S>);

/// `rmcp::model::Tool`, a tool definition as a backend sent it, carried
/// through opaque.
#[verifier::external_type_specification]
#[verifier::external_body]
pub struct ExTool(Tool);

/// `<rmcp::model::Tool as Clone>::clone`, which `derive(Clone)` writes:
/// claimed to give back a value equal, field by field, to the one cloned.
pub assume_specification[ <Tool as Clone>::clone ](t: &Tool) -> (r: Tool)
    ensures
        r == *t,
;

/// The name of a tool definition (its `name` field), by its characters.
pub uninterp spec fn tool_name_of(t: Tool) -> Seq<char>;

/// The description of a tool definition (its `description` field), by its
/// characters, if it has one.
pub uninterp spec fn tool_description_of(t: Tool) -> Option<Seq<char>>;

/// Reads `rmcp::model::Tool::name`: a copy of the tool's name.
#[verifier::external_body]
fn tool_name(t: &Tool) -> (r: String)
    ensures
        r@ == tool_name_of(*t),
{
    t.name.to_string()
}

/// Reads `rmcp::model::Tool::description`: a copy of the tool's description,
/// if it has one.
#[verifier::external_body]
fn tool_description(t: &Tool) -> (r: Option<String>)
    ensures
        match r {
            Some(d) => tool_description_of(*t) == Some(d@),
            None => tool_description_of(*t) is None,
        },
{
    match &t.description {
        Some(d) => Some(d.to_string()),
        None => None,
    }
}

/// A connected backend and the tool definitions that it offered when it
/// connected, in the order it gave them.
pub struct LiveBackend {
    pub tools: Vec<Tool>,
}

/// Summary of one tool, as the REST API lists it.
#[derive(Debug)]
pub struct ToolInfo {
    pub backend: String,
    pub name: String,
    pub description: String,
}

impl View for ToolInfo {
    type V = (Seq<char>, Seq<char>, Seq<char>);

    open spec fn view(&self) -> (Seq<char>, Seq<char>, Seq<char>) {
        (self.backend@, self.name@, self.description@)
    }
}

/// A tool call that the pool has routed: the backend that serves it, and the tool's name.
#[derive(Debug)]
pub struct ToolCall {
    pub backend: String,
    pub tool: String,
}

/// The summary of a tool of the named backend; a missing description is
/// listed as empty.
pub open spec fn entry_info(backend: Seq<char>, t: Tool) -> (Seq<char>, Seq<char>, Seq<char>) {
    (
        backend,
        tool_name_of(t),
        match tool_description_of(t) {
            Some(d) => d,
            None => Seq::<char>::empty(),
        },
    )
}

/// The summaries of a backend's tools, in the order the backend gave them.
pub open spec fn backend_infos(backend: Seq<char>, b: LiveBackend) -> Seq<
    (Seq<char>, Seq<char>, Seq<char>),
> {
    b.tools@.map_values(|t: Tool| entry_info(backend, t))
}

/// The summaries of the tools of the backends named in `order`, backend by backend.
pub open spec fn infos_in(order: Seq<Seq<char>>, live: Map<Seq<char>, LiveBackend>) -> Seq<
    (Seq<char>, Seq<char>, Seq<char>),
> {
    order.map_values(|k: Seq<char>| backend_infos(k, live[k])).flatten()
}

/// The full definitions of a backend's tools, in the order the backend gave them.
pub open spec fn raw_tools(b: LiveBackend) -> Seq<Tool> {
    b.tools@
}

/// The full tool definitions of the backends named in `order`, backend by backend.
pub open spec fn raw_tools_in(order: Seq<Seq<char>>, live: Map<Seq<char>, LiveBackend>) -> Seq<
    Tool,
> {
    order.map_values(|k: Seq<char>| raw_tools(live[k])).flatten()
}

/// The backend offers a tool of that name.
pub open spec fn offers(b: LiveBackend, tool: Seq<char>) -> bool {
    exists|i: int| 0 <= i < b.tools@.len() && #[trigger] tool_name_of(b.tools@[i]) == tool
}

/// `order` lists each name that `m` holds exactly once, and nothing else.
pub open spec fn enumerates<V>(order: Seq<Seq<char>>, m: Map<Seq<char>, V>) -> bool {
    &&& order.no_duplicates()
    &&& forall|k: Seq<char>| #[trigger] m.contains_key(k) <==> order.contains(k)
}

/// The views of a sequence of tool summaries.
pub open spec fn info_views(s: Seq<ToolInfo>) -> Seq<(Seq<char>, Seq<char>, Seq<char>)> {
    s.map_values(|i: ToolInfo| i@)
}

/// No summary has a name that comes before the name of a summary ahead of it.
pub open spec fn sorted_by_name(s: Seq<(Seq<char>, Seq<char>, Seq<char>)>) -> bool {
    forall|i: int, j: int| 0 <= i < j < s.len() ==> !seq_lt(#[trigger] s[j].1, #[trigger] s[i].1)
}

/// The table of live connections: each connected backend, by name.
pub type ConnectionTable = DashMap<String, Arc<LiveBackend>>;

/// What a table of live connections holds: each backend's name, mapped to
/// the backend.
pub uninterp spec fn live_table(m: ConnectionTable) -> Map<
    Seq<char>,
    LiveBackend,
>;

/// `DashMap::new`: a table that holds nothing.
#[verifier::external_body]
fn table_new() -> (table: ConnectionTable)
    ensures
        live_table(table).dom() =~= Set::<Seq<char>>::empty(),
{
    DashMap::new()
}

/// `DashMap::insert`: the table holds `backend` under `name`, in place of
/// whatever it held there.
#[verifier::external_body]
fn table_insert(m: &mut ConnectionTable, name: String, backend: Arc<LiveBackend>)
    ensures
        live_table(*final(m)) == live_table(*old(m)).insert(name@, *backend),
{
    m.insert(name, backend);
}

/// `DashMap::remove`: the table no longer holds `name`.
#[verifier::external_body]
fn table_remove(m: &mut ConnectionTable, name: &str)
    ensures
        live_table(*final(m)) == live_table(*old(m)).remove(name@),
{
    m.remove(name);
}

/// `DashMap::get`: the backend held under `name`, if any, shared.
#[verifier::external_body]
fn table_get(m: &ConnectionTable, name: &str) -> (r: Option<Arc<LiveBackend>>)
    ensures
        match r {
            Some(b) => live_table(*m).contains_key(name@) && *b == live_table(*m)[name@],
            None => !live_table(*m).contains_key(name@),
        },
{
    match m.get(name) {
        Some(entry) => Some(Arc::clone(entry.value())),
        None => None,
    }
}

/// Manages the configured backends and the live connections to them, and
/// routes tool calls and listings over the connected ones.
pub struct BackendPool {
    configs: NameMap<BackendConfig>,
    connections: ConnectionTable,
    /// The names of the connected backends, in the order in which they
    /// connected, the most recent last.
    order: Vec<String>,
}

impl BackendPool {
    /// The configured backends, by name.
    pub closed spec fn configured(&self) -> Map<Seq<char>, BackendConfig> {
        self.configs@
    }

    /// The names of the configured backends, in configuration order.
    pub closed spec fn configured_order(&self) -> Seq<Seq<char>> {
        self.configs.key_order()
    }

    /// The connected backends, by name.
    pub closed spec fn live(&self) -> Map<Seq<char>, LiveBackend> {
        live_table(self.connections)
    }

    /// The names of the connected backends, in the order in which they
    /// connected, the most recent last.
    pub closed spec fn connection_order(&self) -> Seq<Seq<char>> {
        string_views(self.order@)
    }

    /// `configured_order` lists each configured backend once,
    /// `connection_order` lists each connected backend once, and every
    /// connected backend is a configured one.
    pub open spec fn wf(&self) -> bool {
        &&& enumerates(self.configured_order(), self.configured())
        &&& enumerates(self.connection_order(), self.live())
        &&& self.live().dom().subset_of(self.configured().dom())
    }

    /// A pool over `configs`, with nothing connected yet.
    pub fn new(configs: NameMap<BackendConfig>) -> (r: Self)
        ensures
            r.wf(),
            r.configured() == configs@,
            r.configured_order() == configs.key_order(),
            r.live() == Map::<Seq<char>, LiveBackend>::empty(),
            r.connection_order() == Seq::<Seq<char>>::empty(),
    {
        // The configured names are distinct: `len` states it.
        let _ = configs.len();
        let r = BackendPool { configs, connections: table_new(), order: Vec::new() };
        assert(r.live() =~= Map::<Seq<char>, LiveBackend>::empty());
        assert(r.connection_order() =~= Seq::<Seq<char>>::empty());
        r
    }

    /// The configuration of the backends.
    pub fn configs(&self) -> (r: &NameMap<BackendConfig>)
        ensures
            r@ == self.configured(),
            r.key_order() == self.configured_order(),
    {
        &self.configs
    }

    /// Takes `name` out of the connection order, if it is there.
    fn forget(&mut self, name: &str)
        requires
            old(self).connection_order().no_duplicates(),
        ensures
            final(self).configs == old(self).configs,
            final(self).connections == old(self).connections,
            final(self).connection_order().no_duplicates(),
            final(self).connection_order() == without(old(self).connection_order(), name@),
            !final(self).connection_order().contains(name@),
            forall|k: Seq<char>|
                k != name@ ==> (#[trigger] final(self).connection_order().contains(k)
                    <==> old(self).connection_order().contains(k)),
    {
        let ghost before = self.connection_order();
        let mut i: usize = 0;
        while i < self.order.len()
            invariant
                self.connection_order() == before,
                before == old(self).connection_order(),
                before.no_duplicates(),
                self.configs == old(self).configs,
                self.connections == old(self).connections,
                i <= self.order@.len(),
                forall|j: int| 0 <= j < i ==> before[j] != name@,
            decreases self.order@.len() - i,
        {
            if text_eq(self.order[i].as_str(), name) {
                let ghost prev = self.order@;
                self.order.remove(i);
                proof {
                    assert(string_views(self.order@) =~= before.remove(i as int));
                    assert forall|a: int, b: int|
                        0 <= a < b < before.len() - 1 implies #[trigger] before.remove(i as int)[a]
                        != #[trigger] before.remove(i as int)[b] by {
                        let a0 = if a < i { a } else { a + 1 };
                        let b0 = if b < i { b } else { b + 1 };
                        assert(before[a0] != before[b0]);
                    }
                    assert forall|k: Seq<char>|
                        k != name@ implies (#[trigger] before.remove(i as int).contains(k)
                        <==> before.contains(k)) by {
                        if before.contains(k) {
                            let j = before.index_of(k);
                            assert(before[j] == k);
                            assert(j != i);
                            if j < i {
                                assert(before.remove(i as int)[j] == k);
                            } else {
                                assert(before.remove(i as int)[j - 1] == k);
                            }
                        }
                        if before.remove(i as int).contains(k) {
                            let j = before.remove(i as int).index_of(k);
                            if j < i {
                                assert(before[j] == k);
                            } else {
                                assert(before[j + 1] == k);
                            }
                        }
                    }
                    lemma_without_once(before, i as int, name@);
                    if before.remove(i as int).contains(name@) {
                        let j = before.remove(i as int).index_of(name@);
                        if j < i {
                            assert(before[j] == name@);
                        } else {
                            assert(before[j + 1] == name@);
                            assert(before[i as int] == name@);
                        }
                    }
                }
                return;
            }
            i = i + 1;
        }
        proof {
            assert(!before.contains(name@)) by {
                if before.contains(name@) {
                    let j = before.index_of(name@);
                    assert(before[j] == name@);
                }
            }
            lemma_without_absent(before, name@);
        }
    }

    /// Records that the configured backend `name` is connected and offers
    /// `backend`'s tools, in place of any earlier connection; it becomes the
    /// most recently connected backend. A name that is not configured is
    /// refused and nothing changes.
    pub fn register(&mut self, name: String, backend: LiveBackend) -> (r: Result<(), GatewayError>)
        requires
            old(self).wf(),
        ensures
            final(self).wf(),
            same_configuration(*old(self), *final(self)),
            final(self).configured() == old(self).configured(),
            final(self).configured_order() == old(self).configured_order(),
            match r {
                Ok(()) => {
                    &&& old(self).configured().contains_key(name@)
                    &&& final(self).live() == old(self).live().insert(name@, backend)
                    &&& final(self).connection_order() == without(
                        old(self).connection_order(),
                        name@,
                    ).push(name@)
                },
                Err(e) => {
                    &&& !old(self).configured().contains_key(name@)
                    &&& e == GatewayError::NoConfig { backend: name }
                    &&& final(self).live() == old(self).live()
                    &&& final(self).connection_order() == old(self).connection_order()
                },
            },
    {
        if !self.configs.contains_key(name.as_str()) {
            return Err(GatewayError::NoConfig { backend: name });
        }
        let ghost old_live = self.live();
        let ghost old_order = self.connection_order();
        self.forget(name.as_str());
        let ghost mid = self.connection_order();
        self.order.push(name.clone());
        table_insert(&mut self.connections, name, Arc::new(backend));
        proof {
            let new_order = self.connection_order();
            assert(new_order =~= mid.push(name@));
            assert forall|a: int, b: int|
                0 <= a < b < new_order.len() implies #[trigger] new_order[a]
                != #[trigger] new_order[b] by {
                if b == new_order.len() - 1 {
                    assert(mid.contains(new_order[a]));
                }
            }
            assert forall|k: Seq<char>| #[trigger]
                self.live().contains_key(k) <==> new_order.contains(k) by {
                if k != name@ {
                    if mid.contains(k) {
                        let j = mid.index_of(k);
                        assert(new_order[j] == k);
                    }
                    if new_order.contains(k) {
                        let j = new_order.index_of(k);
                        assert(j < mid.len());
                        assert(mid[j] == k);
                    }
                } else {
                    assert(new_order[new_order.len() - 1] == k);
                }
            }
        }
        Ok(())
    }

    /// Drops the connection to `name`, if there is one, and looks the backend
    /// up in the configuration so that it can be connected again. The
    /// connection is dropped whether or not the backend is configured.
    pub fn reconnect(&mut self, name: &str) -> (r: Result<(), GatewayError>)
        requires
            old(self).wf(),
        ensures
            final(self).wf(),
            same_configuration(*old(self), *final(self)),
            final(self).configured() == old(self).configured(),
            final(self).configured_order() == old(self).configured_order(),
            final(self).live() == old(self).live().remove(name@),
            final(self).connection_order() == without(old(self).connection_order(), name@),
            match r {
                Ok(()) => old(self).configured().contains_key(name@),
                Err(e) => !old(self).configured().contains_key(name@) && (e matches GatewayError::NoConfig { backend } && backend@ == name@),
            },
    {
        self.forget(name);
        table_remove(&mut self.connections, name);
        if self.configs.contains_key(name) {
            Ok(())
        } else {
            Err(GatewayError::NoConfig { backend: String::from_str(name) })
        }
    }

    /// Routes a call of `tool_name` to the backend `backend_name`, which
    /// must be connected; whether it offers the tool is the backend's to say.
    pub fn call_tool(&self, backend_name: &str, tool_name: &str) -> (r: Result<
        ToolCall,
        GatewayError,
    >)
        ensures
            match r {
                Ok(c) => self.live().contains_key(backend_name@) && c.backend@ == backend_name@
                    && c.tool@ == tool_name@,
                Err(e) => !self.live().contains_key(backend_name@) && (e matches GatewayError::BackendNotConnected { backend } && backend@ == backend_name@),
            },
    {
        match table_get(&self.connections, backend_name) {
            Some(_) => Ok(
                ToolCall { backend: String::from_str(backend_name), tool: String::from_str(tool_name) },
            ),
            None => Err(GatewayError::BackendNotConnected { backend: String::from_str(backend_name) }),
        }
    }

    /// Routes a call of `tool_name` to a connected backend that offers a tool
    /// of that name. Where several do, the one that connected last wins.
    pub fn call_tool_any(&self, tool_name: &str) -> (r: Result<ToolCall, GatewayError>)
        requires
            self.wf(),
        ensures
            match r {
                Ok(c) => c.tool@ == tool_name@ && last_offering(
                    self.connection_order(),
                    self.live(),
                    tool_name@,
                    c.backend@,
                ),
                Err(e) => (forall|k: Seq<char>| #[trigger]
                    self.live().contains_key(k) ==> !offers(self.live()[k], tool_name@)) && (e matches GatewayError::ToolNotFound { tool } && tool@ == tool_name@),
            },
    {
        let ghost live = self.live();
        let ghost order = self.connection_order();
        let mut i: usize = self.order.len();
        while i > 0
            invariant
                live == self.live(),
                order == self.connection_order(),
                enumerates(order, live),
                i <= order.len(),
                forall|j: int| i <= j < order.len() ==> !offers(#[trigger] live[order[j]], tool_name@),
            decreases i,
        {
            i = i - 1;
            let name = &self.order[i];
            proof {
                assert(order[i as int] == name@);
                assert(order.contains(name@));
            }
            match table_get(&self.connections, name.as_str()) {
                Some(backend) => {
                    if offers_tool(&backend, tool_name) {
                        return Ok(ToolCall { backend: name.clone(), tool: String::from_str(tool_name) });
                    }
                },
                None => {},
            }
        }
        proof {
            assert forall|k: Seq<char>| #[trigger]
                live.contains_key(k) implies !offers(live[k], tool_name@) by {
                assert(order.contains(k));
                let j = order.index_of(k);
                assert(order[j] == k);
            }
        }
        Err(GatewayError::ToolNotFound { tool: String::from_str(tool_name) })
    }

    /// The full definitions of all tools of all connected backends, backend
    /// by backend in connection order.
    pub fn list_all_tools_raw(&self) -> (r: Vec<Tool>)
        requires
            self.wf(),
        ensures
            r@ == raw_tools_in(self.connection_order(), self.live()),
    {
        let ghost live = self.live();
        let ghost order = self.connection_order();
        let mut all: Vec<Tool> = Vec::new();
        let mut i: usize = 0;
        while i < self.order.len()
            invariant
                live == self.live(),
                order == self.connection_order(),
                enumerates(order, live),
                i <= order.len(),
                all@ == raw_tools_in(order.take(i as int), live),
            decreases order.len() - i,
        {
            let name = &self.order[i];
            proof {
                assert(order[i as int] == name@);
                assert(order.contains(name@));
            }
            let ghost b = live[name@];
            let ghost before = all@;
            if let Some(backend) = table_get(&self.connections, name.as_str()) {
                let mut j: usize = 0;
                while j < backend.tools.len()
                    invariant
                        *backend == b,
                        j <= b.tools@.len(),
                        all@ == before + raw_tools(b).take(j as int),
                    decreases b.tools@.len() - j,
                {
                    all.push(backend.tools[j].clone());
                    proof {
                        assert(raw_tools(b).take(j + 1) =~= raw_tools(b).take(j as int).push(
                            b.tools@[j as int],
                        ));
                    }
                    j = j + 1;
                }
                proof {
                    assert(raw_tools(b).take(j as int) =~= raw_tools(b));
                }
            }
            proof {
                lemma_raw_tools_step(order, live, i as int);
            }
            i = i + 1;
        }
        proof {
            assert(order.take(i as int) =~= order);
        }
        all
    }

    /// Summaries of all tools of all connected backends, sorted by tool name;
    /// summaries with equal names keep the order of the connections and of
    /// each backend's tools.
    pub fn list_all_tools(&self) -> (r: Vec<ToolInfo>)
        requires
            self.wf(),
        ensures
            info_views(r@) == sort_by_name(infos_in(self.connection_order(), self.live())),
            sorted_by_name(info_views(r@)),
            info_views(r@).to_multiset() == infos_in(
                self.connection_order(),
                self.live(),
            ).to_multiset(),
            forall|x: (Seq<char>, Seq<char>, Seq<char>)|
                #[trigger] info_views(r@).to_multiset().count(x) == (if self.live().contains_key(
                    x.0,
                ) {
                    backend_infos(x.0, self.live()[x.0]).to_multiset().count(x)
                } else {
                    0
                }),
            info_names(info_views(r@)).to_multiset() == tool_names(
                raw_tools_in(self.connection_order(), self.live()),
            ).to_multiset(),
    {
        let ghost live = self.live();
        let ghost order = self.connection_order();
        let mut out: Vec<ToolInfo> = Vec::new();
        let mut keys: Vec<Vec<char>> = Vec::new();
        let mut i: usize = 0;
        proof {
            assert(infos_in(order.take(0), live) =~= Seq::<(Seq<char>, Seq<char>, Seq<char>)>::empty());
            assert(info_views(out@) =~= Seq::<(Seq<char>, Seq<char>, Seq<char>)>::empty());
        }
        while i < self.order.len()
            invariant
                live == self.live(),
                order == self.connection_order(),
                enumerates(order, live),
                i <= order.len(),
                keys@.len() == out@.len(),
                forall|m: int| 0 <= m < keys@.len() ==> #[trigger] keys@[m]@ == out@[m].name@,
                info_views(out@) == sort_by_name(infos_in(order.take(i as int), live)),
            decreases order.len() - i,
        {
            let name = &self.order[i];
            proof {
                assert(order[i as int] == name@);
                assert(order.contains(name@));
            }
            let ghost b = live[name@];
            let ghost before = infos_in(order.take(i as int), live);
            proof {
                assert(before + backend_infos(name@, b).take(0) =~= before);
            }
            if let Some(backend) = table_get(&self.connections, name.as_str()) {
                let mut j: usize = 0;
                while j < backend.tools.len()
                    invariant
                        *backend == b,
                        j <= b.tools@.len(),
                        keys@.len() == out@.len(),
                        forall|m: int|
                            0 <= m < keys@.len() ==> #[trigger] keys@[m]@ == out@[m].name@,
                        info_views(out@) == sort_by_name(
                            before + backend_infos(name@, b).take(j as int),
                        ),
                    decreases b.tools@.len() - j,
                {
                    let info = summarize(name, &backend.tools[j]);
                    let key = chars_of(info.name.as_str());
                    let mut p: usize = 0;
                    while p < keys.len() && !chars_lt(&key, &keys[p])
                        invariant
                            p <= keys@.len(),
                            forall|m: int| 0 <= m < p ==> !seq_lt(key@, #[trigger] keys@[m]@),
                        decreases keys@.len() - p,
                    {
                        p = p + 1;
                    }
                    let ghost old_out = out@;
                    let ghost x = info@;
                    proof {
                        let cur = before + backend_infos(name@, b).take(j as int);
                        assert forall|m: int| 0 <= m < p implies !seq_lt(
                            x.1,
                            #[trigger] info_views(old_out)[m].1,
                        ) by {
                            assert(keys@[m]@ == old_out[m].name@);
                        }
                        if p < keys@.len() {
                            assert(keys@[p as int]@ == old_out[p as int].name@);
                        }
                        lemma_insert_at_first_after(info_views(old_out), p as int, x);
                        assert(info_views(old_out.insert(p as int, info)) =~= info_views(
                            old_out,
                        ).insert(p as int, x));
                        assert(backend_infos(name@, b).take(j + 1) =~= backend_infos(
                            name@,
                            b,
                        ).take(j as int).push(x));
                        assert((before + backend_infos(name@, b).take(j + 1)) =~= cur.push(x));
                        assert(cur.push(x).drop_last() =~= cur);
                    }
                    out.insert(p, info);
                    keys.insert(p, key);
                    proof {
                        assert forall|m: int| 0 <= m < keys@.len() implies #[trigger] keys@[m]@
                            == out@[m].name@ by {
                            if m > p {
                                assert(keys@[m] == keys@.subrange(0, keys@.len() as int)[m]);
                            }
                        }
                    }
                    j = j + 1;
                }
                proof {
                    assert(backend_infos(name@, b).take(j as int) =~= backend_infos(name@, b));
                }
            }
            proof {
                lemma_infos_step(order, live, i as int);
            }
            i = i + 1;
        }
        proof {
            assert(order.take(i as int) =~= order);
            lemma_sort_by_name_sorted(infos_in(order, live));
            lemma_sort_by_name_permutes(infos_in(order, live));
            lemma_listings_agree_on_names(order, live);
            assert forall|x: (Seq<char>, Seq<char>, Seq<char>)|
                #[trigger] info_views(out@).to_multiset().count(x) == (if live.contains_key(x.0) {
                    backend_infos(x.0, live[x.0]).to_multiset().count(x)
                } else {
                    0
                }) by {
                lemma_full_listing_counts(order, live, x);
            }
        }
        out
    }

    /// Summaries of the tools of the connected backend `backend_name`, in the
    /// order the backend gave them.
    pub fn list_tools(&self, backend_name: &str) -> (r: Result<Vec<ToolInfo>, GatewayError>)
        ensures
            match r {
                Ok(v) => self.live().contains_key(backend_name@) && info_views(v@)
                    == backend_infos(backend_name@, self.live()[backend_name@]),
                Err(e) => !self.live().contains_key(backend_name@) && (e matches GatewayError::BackendNotConnected { backend } && backend@ == backend_name@),
            },
    {
        let backend = match table_get(&self.connections, backend_name) {
            Some(b) => b,
            None => {
                return Err(
                    GatewayError::BackendNotConnected { backend: String::from_str(backend_name) },
                );
            },
        };
        let ghost b = self.live()[backend_name@];
        let name = String::from_str(backend_name);
        let mut out: Vec<ToolInfo> = Vec::new();
        let mut j: usize = 0;
        while j < backend.tools.len()
            invariant
                *backend == b,
                name@ == backend_name@,
                j <= b.tools@.len(),
                info_views(out@) == backend_infos(backend_name@, b).take(j as int),
            decreases b.tools@.len() - j,
        {
            let info = summarize(&name, &backend.tools[j]);
            let ghost prev = out@;
            out.push(info);
            proof {
                assert(info_views(out@) =~= info_views(prev).push(info@));
                assert(backend_infos(backend_name@, b).take(j + 1) =~= backend_infos(
                    backend_name@,
                    b,
                ).take(j as int).push(info@));
            }
            j = j + 1;
        }
        proof {
            assert(backend_infos(backend_name@, b).take(j as int) =~= backend_infos(
                backend_name@,
                b,
            ));
        }
        Ok(out)
    }

    /// The names of the connected backends, in the order in which they connected.
    pub fn connected_backends(&self) -> (r: Vec<String>)
        ensures
            string_views(r@) == self.connection_order(),
    {
        let mut names: Vec<String> = Vec::new();
        let mut i: usize = 0;
        while i < self.order.len()
            invariant
                i <= self.order@.len(),
                string_views(names@) == self.connection_order().take(i as int),
            decreases self.order@.len() - i,
        {
            let ghost prev = names@;
            names.push(self.order[i].clone());
            proof {
                assert(string_views(names@) =~= string_views(prev).push(self.order@[i as int]@));
                assert(self.connection_order().take(i + 1) =~= self.connection_order().take(
                    i as int,
                ).push(self.order@[i as int]@));
            }
            i = i + 1;
        }
        proof {
            assert(self.connection_order().take(i as int) =~= self.connection_order());
        }
        names
    }

    /// The names of the configured backends, in configuration order.
    pub fn configured_backends(&self) -> (r: Vec<String>)
        ensures
            string_views(r@) == self.configured_order(),
            enumerates(self.configured_order(), self.configured()),
    {
        self.configs.keys()
    }
}

/// Whether a name differs from `k`.
pub open spec fn other_than(k: Seq<char>) -> spec_fn(Seq<char>) -> bool {
    |x: Seq<char>| x != k
}

/// `s` with every occurrence of `k` taken out, the rest in order.
pub open spec fn without(s: Seq<Seq<char>>, k: Seq<char>) -> Seq<Seq<char>> {
    s.filter(other_than(k))
}

proof fn lemma_without_absent(s: Seq<Seq<char>>, k: Seq<char>)
    requires
        !s.contains(k),
    ensures
        without(s, k) == s,
    decreases s.len(),
{
    reveal_with_fuel(Seq::filter, 1);
    if s.len() > 0 {
        assert(!s.drop_last().contains(k)) by {
            if s.drop_last().contains(k) {
                let j = s.drop_last().index_of(k);
                assert(s[j] == k);
            }
        }
        lemma_without_absent(s.drop_last(), k);
        assert(s.last() != k) by {
            assert(s[s.len() - 1] == s.last());
        }
        assert(other_than(k)(s.last()));
        assert(s.filter(other_than(k)) == s.drop_last().filter(other_than(k)).push(s.last()));
        assert(s.drop_last().push(s.last()) =~= s);
    }
}

proof fn lemma_without_once(s: Seq<Seq<char>>, i: int, k: Seq<char>)
    requires
        0 <= i < s.len(),
        s[i] == k,
        forall|j: int| 0 <= j < s.len() && j != i ==> s[j] != k,
    ensures
        without(s, k) == s.remove(i),
    decreases s.len(),
{
    reveal_with_fuel(Seq::filter, 1);
    let t = s.drop_last();
    if i == s.len() - 1 {
        assert(!t.contains(k)) by {
            if t.contains(k) {
                let j = t.index_of(k);
                assert(s[j] == k);
            }
        }
        lemma_without_absent(t, k);
        assert(!other_than(k)(s.last()));
        assert(s.filter(other_than(k)) == t.filter(other_than(k)));
        assert(s.remove(i) =~= t);
    } else {
        assert forall|j: int| 0 <= j < t.len() && j != i implies t[j] != k by {
            assert(t[j] == s[j]);
        }
        lemma_without_once(t, i, k);
        assert(s.last() != k);
        assert(other_than(k)(s.last()));
        assert(s.filter(other_than(k)) == t.filter(other_than(k)).push(s.last()));
        assert(s.remove(i) =~= t.remove(i).push(s.last()));
    }
}

/// Of the backends in `order` that offer `tool`, `chosen` is the last.
pub open spec fn last_offering(
    order: Seq<Seq<char>>,
    live: Map<Seq<char>, LiveBackend>,
    tool: Seq<char>,
    chosen: Seq<char>,
) -> bool {
    exists|i: int|
        0 <= i < order.len() && #[trigger] order[i] == chosen && live.contains_key(chosen)
            && offers(live[chosen], tool) && forall|j: int|
            i < j < order.len() ==> !offers(#[trigger] live[order[j]], tool)
}

/// A backend that has just been registered is connected with exactly the
/// tools it brought: listing it gives back their summaries, and the other
/// backends are as they were.
pub proof fn lemma_register_then_list(
    before: Map<Seq<char>, LiveBackend>,
    after: Map<Seq<char>, LiveBackend>,
    name: Seq<char>,
    backend: LiveBackend,
)
    requires
        after == before.insert(name, backend),
    ensures
        after.contains_key(name),
        backend_infos(name, after[name]) == backend_infos(name, backend),
        forall|tool: Seq<char>| offers(after[name], tool) <==> offers(backend, tool),
        forall|k: Seq<char>| k != name ==> (#[trigger] after.contains_key(k) <==> before.contains_key(k)),
        forall|k: Seq<char>| k != name && before.contains_key(k) ==> #[trigger] after[k] == before[k],
{
}

/// After a reconnect has dropped a backend's connection, the backend is not
/// connected (so calls to it are refused as not connected) until it is
/// registered again, and no other backend is touched.
pub proof fn lemma_reconnect_disconnects(
    before: Map<Seq<char>, LiveBackend>,
    after: Map<Seq<char>, LiveBackend>,
    name: Seq<char>,
)
    requires
        after == before.remove(name),
    ensures
        !after.contains_key(name),
        forall|k: Seq<char>| k != name ==> (#[trigger] after.contains_key(k) <==> before.contains_key(k)),
        forall|k: Seq<char>| k != name && before.contains_key(k) ==> #[trigger] after[k] == before[k],
{
}

/// A backend offers a tool name exactly when one of its tools bears that
/// very name, character for character; a tool whose name merely contains
/// it, or is contained in it, does not count.
pub proof fn lemma_offers_exact_name(b: LiveBackend, tool: Seq<char>)
    ensures
        offers(b, tool) <==> exists|i: int| 0 <= i < b.tools@.len() && tool_name_of(b.tools@[i]) == tool,
        forall|i: int| 0 <= i < b.tools@.len() ==> offers(b, #[trigger] tool_name_of(b.tools@[i])),
        b.tools@.len() == 0 ==> !offers(b, tool),
{
    assert forall|i: int| 0 <= i < b.tools@.len() implies offers(b, #[trigger] tool_name_of(b.tools@[i])) by {
        assert(tool_name_of(b.tools@[i]) == tool_name_of(b.tools@[i]));
    }
    if offers(b, tool) {
        let i = choose|i: int| 0 <= i < b.tools@.len() && #[trigger] tool_name_of(b.tools@[i]) == tool;
        assert(tool_name_of(b.tools@[i]) == tool);
    }
    if exists|i: int| 0 <= i < b.tools@.len() && tool_name_of(b.tools@[i]) == tool {
        let i = choose|i: int| 0 <= i < b.tools@.len() && tool_name_of(b.tools@[i]) == tool;
        assert(tool_name_of(b.tools@[i]) == tool);
    }
}

/// A call routed by tool name alone goes to a connected backend that holds a
/// tool whose name equals the requested name; and no connected backend that
/// connected after it holds such a tool.
pub proof fn lemma_routed_backend_holds_the_tool(
    order: Seq<Seq<char>>,
    live: Map<Seq<char>, LiveBackend>,
    tool: Seq<char>,
    chosen: Seq<char>,
)
    requires
        last_offering(order, live, tool, chosen),
    ensures
        live.contains_key(chosen),
        exists|i: int| 0 <= i < live[chosen].tools@.len() && tool_name_of(live[chosen].tools@[i]) == tool,
        exists|p: int|
            0 <= p < order.len() && order[p] == chosen && forall|j: int, i: int|
                p < j < order.len() && 0 <= i < live[order[j]].tools@.len() ==> tool_name_of(
                    #[trigger] live[order[j]].tools@[i],
                ) != tool,
{
    let p = choose|i: int|
        0 <= i < order.len() && #[trigger] order[i] == chosen && live.contains_key(chosen)
            && offers(live[chosen], tool) && forall|j: int|
            i < j < order.len() ==> !offers(#[trigger] live[order[j]], tool);
    lemma_offers_exact_name(live[chosen], tool);
    assert forall|j: int, i: int|
        p < j < order.len() && 0 <= i < live[order[j]].tools@.len() implies tool_name_of(
        #[trigger] live[order[j]].tools@[i],
    ) != tool by {
        assert(!offers(live[order[j]], tool));
        lemma_offers_exact_name(live[order[j]], tool);
    }
}

/// A backend's listing summarises every one of its tools, in order: the
/// backend's name, the tool's name, and the tool's whole description (empty
/// when it has none); and the full definitions are its tools themselves.
pub proof fn lemma_backend_listing_complete(k: Seq<char>, b: LiveBackend)
    ensures
        backend_infos(k, b).len() == b.tools@.len(),
        raw_tools(b) == b.tools@,
        forall|i: int|
            0 <= i < b.tools@.len() ==> {
                &&& (#[trigger] backend_infos(k, b)[i]).0 == k
                &&& backend_infos(k, b)[i].1 == tool_name_of(b.tools@[i])
                &&& (tool_description_of(b.tools@[i]) matches Some(d) ==> backend_infos(k, b)[i].2
                    == d)
                &&& (tool_description_of(b.tools@[i]) is None ==> backend_infos(k, b)[i].2
                    == Seq::<char>::empty())
            },
{
}

/// The full listings hold every tool of every connected backend: the
/// listing of definitions and the listing of summaries are as long as all
/// connected backends' tools together, and each tool appears in both.
pub proof fn lemma_full_listing_complete(order: Seq<Seq<char>>, live: Map<Seq<char>, LiveBackend>)
    ensures
        infos_in(order, live).len() == raw_tools_in(order, live).len(),
        forall|p: int, i: int|
            0 <= p < order.len() && 0 <= i < live[order[p]].tools@.len() ==> {
                &&& raw_tools_in(order, live).contains(#[trigger] live[order[p]].tools@[i])
                &&& infos_in(order, live).contains(entry_info(order[p], live[order[p]].tools@[i]))
            },
    decreases order.len(),
{
    lemma_names_in(order, live);
    if order.len() > 0 {
        let n = order.len() - 1;
        let rest = order.take(n);
        lemma_full_listing_complete(rest, live);
        lemma_infos_step(order, live, n);
        lemma_raw_tools_step(order, live, n);
        assert(order.take(n + 1) =~= order);
        let k = order[n];
        let a = infos_in(rest, live);
        let c = raw_tools_in(rest, live);
        let bi = backend_infos(k, live[k]);
        let d = raw_tools(live[k]);
        assert forall|p: int, i: int|
            0 <= p < order.len() && 0 <= i < live[order[p]].tools@.len() implies {
            &&& raw_tools_in(order, live).contains(#[trigger] live[order[p]].tools@[i])
            &&& infos_in(order, live).contains(entry_info(order[p], live[order[p]].tools@[i]))
        } by {
            let t = live[order[p]].tools@[i];
            if p < n {
                assert(rest[p] == order[p]);
                assert(c.contains(t));
                assert(a.contains(entry_info(rest[p], t)));
                let x = c.index_of(t);
                assert((c + d)[x] == t);
                let y = a.index_of(entry_info(rest[p], t));
                assert((a + bi)[y] == entry_info(order[p], t));
            } else {
                assert(d[i] == t);
                assert((c + d)[c.len() + i] == t);
                assert(bi[i] == entry_info(k, t));
                assert((a + bi)[a.len() + i] == entry_info(k, t));
            }
        }
    }
}

/// The names of a sequence of tool summaries.
pub open spec fn info_names(s: Seq<(Seq<char>, Seq<char>, Seq<char>)>) -> Seq<Seq<char>> {
    s.map_values(|x: (Seq<char>, Seq<char>, Seq<char>)| x.1)
}

/// The names of a sequence of tool definitions.
pub open spec fn tool_names(s: Seq<Tool>) -> Seq<Seq<char>> {
    s.map_values(|t: Tool| tool_name_of(t))
}

/// Two states of a pool hold the same configuration.
pub open spec fn same_configuration(a: BackendPool, b: BackendPool) -> bool {
    a.configured() == b.configured() && a.configured_order() == b.configured_order()
}

/// The full listing and the listing of one backend agree: every summary
/// occurs in the full listing exactly as often as in the listing of the
/// backend it names, and not at all when that backend is not connected.
pub proof fn lemma_full_listing_counts(
    order: Seq<Seq<char>>,
    live: Map<Seq<char>, LiveBackend>,
    x: (Seq<char>, Seq<char>, Seq<char>),
)
    requires
        enumerates(order, live),
    ensures
        infos_in(order, live).to_multiset().count(x) == (if live.contains_key(x.0) {
            backend_infos(x.0, live[x.0]).to_multiset().count(x)
        } else {
            0
        }),
{
    lemma_infos_counts(order, live, x);
}

proof fn lemma_infos_counts(
    order: Seq<Seq<char>>,
    live: Map<Seq<char>, LiveBackend>,
    x: (Seq<char>, Seq<char>, Seq<char>),
)
    requires
        order.no_duplicates(),
    ensures
        infos_in(order, live).to_multiset().count(x) == (if order.contains(x.0) {
            backend_infos(x.0, live[x.0]).to_multiset().count(x)
        } else {
            0
        }),
    decreases order.len(),
{
    broadcast use vstd::multiset::group_multiset_axioms;

    if order.len() == 0 {
        assert(infos_in(order, live) =~= Seq::<(Seq<char>, Seq<char>, Seq<char>)>::empty());
    } else {
        let n = order.len() - 1;
        let k = order[n];
        let rest = order.take(n);
        assert(rest.no_duplicates());
        lemma_infos_counts(rest, live, x);
        lemma_infos_step(order, live, n);
        assert(order.take(n + 1) =~= order);
        let tail = backend_infos(k, live[k]);
        vstd::seq_lib::lemma_multiset_commutative(infos_in(rest, live), tail);
        if x.0 != k {
            if tail.to_multiset().count(x) > 0 {
                assert(tail.contains(x));
                let j = tail.index_of(x);
                assert(tail[j].0 == k);
            }
            assert(order.contains(x.0) <==> rest.contains(x.0)) by {
                if order.contains(x.0) {
                    let j = order.index_of(x.0);
                    assert(order[j] == x.0);
                    assert(j < n);
                    assert(rest[j] == x.0);
                }
                if rest.contains(x.0) {
                    let j = rest.index_of(x.0);
                    assert(order[j] == rest[j]);
                }
            }
        } else {
            assert(order.contains(x.0)) by {
                assert(order[n] == x.0);
            }
            assert(!rest.contains(x.0)) by {
                if rest.contains(x.0) {
                    let j = rest.index_of(x.0);
                    assert(order[j] == x.0);
                    assert(j != n);
                }
            }
        }
    }
}

/// The summaries and the full definitions of all tools name the same tools,
/// each as often: the sorted listing of summaries and the listing of full
/// definitions hold the same multiset of tool names.
pub proof fn lemma_listings_agree_on_names(order: Seq<Seq<char>>, live: Map<Seq<char>, LiveBackend>)
    ensures
        info_names(infos_in(order, live)) == tool_names(raw_tools_in(order, live)),
        info_names(sort_by_name(infos_in(order, live))).to_multiset() == tool_names(
            raw_tools_in(order, live),
        ).to_multiset(),
{
    lemma_names_in(order, live);
    lemma_sort_by_name_keeps_names(infos_in(order, live));
}

proof fn lemma_names_in(order: Seq<Seq<char>>, live: Map<Seq<char>, LiveBackend>)
    ensures
        info_names(infos_in(order, live)) == tool_names(raw_tools_in(order, live)),
    decreases order.len(),
{
    if order.len() == 0 {
        assert(infos_in(order, live) =~= Seq::<(Seq<char>, Seq<char>, Seq<char>)>::empty());
        assert(raw_tools_in(order, live) =~= Seq::<Tool>::empty());
        assert(info_names(infos_in(order, live)) =~= tool_names(raw_tools_in(order, live)));
    } else {
        let n = order.len() - 1;
        let k = order[n];
        let rest = order.take(n);
        lemma_names_in(rest, live);
        lemma_infos_step(order, live, n);
        lemma_raw_tools_step(order, live, n);
        assert(order.take(n + 1) =~= order);
        let a = infos_in(rest, live);
        let b = backend_infos(k, live[k]);
        let c = raw_tools_in(rest, live);
        let d = raw_tools(live[k]);
        assert(info_names(a + b) =~= info_names(a) + info_names(b));
        assert(tool_names(c + d) =~= tool_names(c) + tool_names(d));
        assert(info_names(b) =~= tool_names(d));
    }
}

proof fn lemma_sort_by_name_keeps_names(s: Seq<(Seq<char>, Seq<char>, Seq<char>)>)
    ensures
        info_names(sort_by_name(s)).to_multiset() == info_names(s).to_multiset(),
    decreases s.len(),
{
    if s.len() > 0 {
        let t = sort_by_name(s.drop_last());
        lemma_sort_by_name_keeps_names(s.drop_last());
        let p = lemma_insert_by_name_index(t, s.last());
        assert(info_names(t.insert(p, s.last())) =~= info_names(t).insert(p, s.last().1));
        vstd::seq_lib::to_multiset_insert(info_names(t), p, s.last().1);
        assert(info_names(s) =~= info_names(s.drop_last()).push(s.last().1));
        vstd::seq_lib::to_multiset_build(info_names(s.drop_last()), s.last().1);
    }
}

/// The configuration never changes: in every state of a pool reached from
/// `BackendPool::new(configs)` by operations that keep the configuration
/// (which every operation does), the configured backends are `configs`, in
/// its order, each listed once.
pub proof fn lemma_configuration_is_fixed(states: Seq<BackendPool>, configs: NameMap<BackendConfig>)
    requires
        states.len() > 0,
        states[0].wf(),
        states[0].configured() == configs@,
        states[0].configured_order() == configs.key_order(),
        forall|i: int| 0 <= i < states.len() - 1 ==> same_configuration(#[trigger] states[i], states[i + 1]),
    ensures
        forall|i: int|
            0 <= i < states.len() ==> {
                &&& #[trigger] states[i].configured() == configs@
                &&& states[i].configured_order() == configs.key_order()
                &&& enumerates(states[i].configured_order(), states[i].configured())
                &&& states[i].configured_order().len() == configs@.len()
            },
{
    lemma_enumerates_len(states[0].configured_order(), states[0].configured());
    assert forall|i: int| 0 <= i < states.len() implies #[trigger] states[i].configured() == configs@
        && states[i].configured_order() == configs.key_order() by {
        lemma_configuration_prefix(states, configs, i);
    }
}

proof fn lemma_configuration_prefix(states: Seq<BackendPool>, configs: NameMap<BackendConfig>, i: int)
    requires
        0 <= i < states.len(),
        states[0].configured() == configs@,
        states[0].configured_order() == configs.key_order(),
        forall|j: int| 0 <= j < states.len() - 1 ==> same_configuration(#[trigger] states[j], states[j + 1]),
    ensures
        states[i].configured() == configs@,
        states[i].configured_order() == configs.key_order(),
    decreases i,
{
    if i > 0 {
        lemma_configuration_prefix(states, configs, i - 1);
        assert(same_configuration(states[i - 1], states[i]));
    }
}

/// Last connection wins: when the backend that connected most recently
/// offers a tool, a call of that tool by name alone is routed to it, whatever
/// other backends offer the same name.
pub proof fn lemma_last_connected_wins(
    order: Seq<Seq<char>>,
    live: Map<Seq<char>, LiveBackend>,
    tool: Seq<char>,
    chosen: Seq<char>,
)
    requires
        order.len() > 0,
        live.contains_key(order.last()),
        offers(live[order.last()], tool),
        last_offering(order, live, tool, chosen),
    ensures
        chosen == order.last(),
{
    let i = choose|i: int|
        0 <= i < order.len() && #[trigger] order[i] == chosen && live.contains_key(chosen)
            && offers(live[chosen], tool) && forall|j: int|
            i < j < order.len() ==> !offers(#[trigger] live[order[j]], tool);
    if i < order.len() - 1 {
        assert(!offers(live[order[order.len() - 1]], tool));
    }
}

/// The full listing and the listings of single backends agree: the full
/// listing holds, for each connected backend, exactly the summaries that
/// listing that backend alone gives back.
pub proof fn lemma_full_listing_is_union(
    order: Seq<Seq<char>>,
    live: Map<Seq<char>, LiveBackend>,
    name: Seq<char>,
    info: (Seq<char>, Seq<char>, Seq<char>),
)
    requires
        enumerates(order, live),
        live.contains_key(name),
        backend_infos(name, live[name]).contains(info),
    ensures
        infos_in(order, live).contains(info),
{
    let f = |k: Seq<char>| backend_infos(k, live[k]);
    let i = order.index_of(name);
    assert(order.contains(name));
    assert(order[i] == name);
    let j = backend_infos(name, live[name]).index_of(info);
    assert(order.map_values(f)[i] == backend_infos(name, live[name]));
    lemma_flatten_contains(order.map_values(f), i, j);
}

proof fn lemma_flatten_contains<A>(s: Seq<Seq<A>>, i: int, j: int)
    requires
        0 <= i < s.len(),
        0 <= j < s[i].len(),
    ensures
        s.flatten().contains(s[i][j]),
    decreases s.len(),
{
    if i == s.len() - 1 {
        s.drop_last().lemma_flatten_push(s.last());
        assert(s =~= s.drop_last().push(s.last()));
        assert(s.flatten()[s.drop_last().flatten().len() + j] == s[i][j]);
    } else {
        lemma_flatten_contains(s.drop_last(), i, j);
        s.drop_last().lemma_flatten_push(s.last());
        assert(s =~= s.drop_last().push(s.last()));
        let k = s.drop_last().flatten().index_of(s[i][j]);
        assert(s.flatten()[k] == s[i][j]);
    }
}

/// Whether the backend offers a tool named `tool`.
fn offers_tool(b: &LiveBackend, tool: &str) -> (r: bool)
    ensures
        r == offers(*b, tool@),
{
    let mut i: usize = 0;
    while i < b.tools.len()
        invariant
            i <= b.tools@.len(),
            forall|j: int| 0 <= j < i ==> #[trigger] tool_name_of(b.tools@[j]) != tool@,
        decreases b.tools@.len() - i,
    {
        let name = tool_name(&b.tools[i]);
        if text_eq(name.as_str(), tool) {
            return true;
        }
        i = i + 1;
    }
    false
}

/// The summary of a tool of the backend `backend`.
fn summarize(backend: &String, t: &Tool) -> (r: ToolInfo)
    ensures
        r@ == entry_info(backend@, *t),
{
    let description = match tool_description(t) {
        Some(d) => d,
        None => String::new(),
    };
    ToolInfo { backend: backend.clone(), name: tool_name(t), description }
}

/// A listing that enumerates a map has one entry per name, and the map is finite.
pub proof fn lemma_enumerates_len<V>(order: Seq<Seq<char>>, m: Map<Seq<char>, V>)
    requires
        enumerates(order, m),
    ensures
        m.dom().finite(),
        order.len() == m.len(),
{
    assert(m.dom() =~= order.to_set());
    order.unique_seq_to_set();
}

proof fn lemma_raw_tools_step(order: Seq<Seq<char>>, live: Map<Seq<char>, LiveBackend>, i: int)
    requires
        0 <= i < order.len(),
    ensures
        raw_tools_in(order.take(i + 1), live) == raw_tools_in(order.take(i), live) + raw_tools(
            live[order[i]],
        ),
{
    let f = |k: Seq<char>| raw_tools(live[k]);
    assert(order.take(i + 1).map_values(f) =~= order.take(i).map_values(f).push(f(order[i])));
    order.take(i).map_values(f).lemma_flatten_push(f(order[i]));
}

proof fn lemma_infos_step(order: Seq<Seq<char>>, live: Map<Seq<char>, LiveBackend>, i: int)
    requires
        0 <= i < order.len(),
    ensures
        infos_in(order.take(i + 1), live) == infos_in(order.take(i), live) + backend_infos(
            order[i],
            live[order[i]],
        ),
{
    let f = |k: Seq<char>| backend_infos(k, live[k]);
    assert(order.take(i + 1).map_values(f) =~= order.take(i).map_values(f).push(f(order[i])));
    order.take(i).map_values(f).lemma_flatten_push(f(order[i]));
}

/// `x` placed before the first summary whose name comes after `x`'s name,
/// or at the end when none does.
pub open spec fn insert_by_name(
    s: Seq<(Seq<char>, Seq<char>, Seq<char>)>,
    x: (Seq<char>, Seq<char>, Seq<char>),
) -> Seq<(Seq<char>, Seq<char>, Seq<char>)>
    decreases s.len(),
{
    if s.len() == 0 {
        seq![x]
    } else if seq_lt(x.1, s[0].1) {
        seq![x] + s
    } else {
        seq![s[0]] + insert_by_name(s.drop_first(), x)
    }
}

/// The summaries sorted by name, stably: summaries with equal names keep
/// their relative order.
pub open spec fn sort_by_name(s: Seq<(Seq<char>, Seq<char>, Seq<char>)>) -> Seq<
    (Seq<char>, Seq<char>, Seq<char>),
>
    decreases s.len(),
{
    if s.len() == 0 {
        s
    } else {
        insert_by_name(sort_by_name(s.drop_last()), s.last())
    }
}

/// Inserting `x` at the first position whose summary has a name after `x`'s
/// is `insert_by_name`.
proof fn lemma_insert_at_first_after(
    s: Seq<(Seq<char>, Seq<char>, Seq<char>)>,
    p: int,
    x: (Seq<char>, Seq<char>, Seq<char>),
)
    requires
        0 <= p <= s.len(),
        forall|m: int| 0 <= m < p ==> !seq_lt(x.1, #[trigger] s[m].1),
        p < s.len() ==> seq_lt(x.1, s[p].1),
    ensures
        s.insert(p, x) == insert_by_name(s, x),
    decreases s.len(),
{
    if s.len() == 0 {
        assert(s.insert(p, x) =~= seq![x]);
    } else if p == 0 {
        assert(s.insert(p, x) =~= seq![x] + s);
    } else {
        let t = s.drop_first();
        assert forall|m: int| 0 <= m < p - 1 implies !seq_lt(x.1, #[trigger] t[m].1) by {
            assert(t[m] == s[m + 1]);
        }
        if p - 1 < t.len() {
            assert(t[p - 1] == s[p]);
        }
        lemma_insert_at_first_after(t, p - 1, x);
        assert(!seq_lt(x.1, s[0].1));
        assert(s.insert(p, x) =~= seq![s[0]] + t.insert(p - 1, x));
    }
}

/// `insert_by_name` inserts at the first position whose summary has a name
/// after `x`'s.
proof fn lemma_insert_by_name_index(
    s: Seq<(Seq<char>, Seq<char>, Seq<char>)>,
    x: (Seq<char>, Seq<char>, Seq<char>),
) -> (p: int)
    ensures
        0 <= p <= s.len(),
        forall|m: int| 0 <= m < p ==> !seq_lt(x.1, #[trigger] s[m].1),
        p < s.len() ==> seq_lt(x.1, s[p].1),
        insert_by_name(s, x) == s.insert(p, x),
    decreases s.len(),
{
    if s.len() == 0 {
        assert(s.insert(0, x) =~= seq![x]);
        0
    } else if seq_lt(x.1, s[0].1) {
        assert(s.insert(0, x) =~= seq![x] + s);
        0
    } else {
        let t = s.drop_first();
        let q = lemma_insert_by_name_index(t, x);
        assert forall|m: int| 0 <= m < q + 1 implies !seq_lt(x.1, #[trigger] s[m].1) by {
            if m > 0 {
                assert(s[m] == t[m - 1]);
            }
        }
        if q + 1 < s.len() {
            assert(s[q + 1] == t[q]);
        }
        assert(s.insert(q + 1, x) =~= seq![s[0]] + t.insert(q, x));
        q + 1
    }
}

/// The sorted listing is sorted by name.
pub proof fn lemma_sort_by_name_sorted(s: Seq<(Seq<char>, Seq<char>, Seq<char>)>)
    ensures
        sorted_by_name(sort_by_name(s)),
    decreases s.len(),
{
    if s.len() > 0 {
        let t = sort_by_name(s.drop_last());
        lemma_sort_by_name_sorted(s.drop_last());
        let p = lemma_insert_by_name_index(t, s.last());
        lemma_insert_sorted(t, p, s.last());
    }
}

/// The sorted listing holds the same summaries, each as often.
pub proof fn lemma_sort_by_name_permutes(s: Seq<(Seq<char>, Seq<char>, Seq<char>)>)
    ensures
        sort_by_name(s).to_multiset() == s.to_multiset(),
    decreases s.len(),
{
    if s.len() > 0 {
        let t = sort_by_name(s.drop_last());
        lemma_sort_by_name_permutes(s.drop_last());
        let p = lemma_insert_by_name_index(t, s.last());
        assert(s =~= s.drop_last().push(s.last()));
        vstd::seq_lib::to_multiset_insert(t, p, s.last());
        vstd::seq_lib::to_multiset_build(s.drop_last(), s.last());
    }
}

/// Inserting `x` after every entry whose name does not come after `x`'s, and
/// before the first whose name does, keeps a listing sorted by name.
proof fn lemma_insert_sorted(s: Seq<(Seq<char>, Seq<char>, Seq<char>)>, p: int, x: (Seq<char>, Seq<char>, Seq<char>))
    requires
        sorted_by_name(s),
        0 <= p <= s.len(),
        forall|m: int| 0 <= m < p ==> !seq_lt(x.1, #[trigger] s[m].1),
        p < s.len() ==> seq_lt(x.1, s[p].1),
    ensures
        sorted_by_name(s.insert(p, x)),
{
    let t = s.insert(p, x);
    assert forall|a: int, c: int| 0 <= a < c < t.len() implies !seq_lt(
        #[trigger] t[c].1,
        #[trigger] t[a].1,
    ) by {
        if a < p && c < p {
            assert(t[a] == s[a] && t[c] == s[c]);
        } else if a < p && c == p {
            assert(t[a] == s[a]);
        } else if a < p {
            assert(t[a] == s[a] && t[c] == s[c - 1]);
        } else if a == p {
            assert(t[c] == s[c - 1]);
            if seq_lt(s[c - 1].1, x.1) {
                lemma_seq_lt_transitive(s[c - 1].1, x.1, s[p].1);
                if p == c - 1 {
                    lemma_seq_lt_irreflexive(s[p].1);
                } else {
                    assert(!seq_lt(s[c - 1].1, s[p].1));
                }
            }
        } else {
            assert(t[a] == s[a - 1] && t[c] == s[c - 1]);
        }
    }
}

} // verus!
