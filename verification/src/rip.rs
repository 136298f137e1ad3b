//! Distance-vector routing (RIP) over a fixed network: per-node distance
//! vectors, the relaxation a node applies to a neighbour's vector, the queue
//! of nodes with updates to announce, and the network that runs them.

use vstd::prelude::*;
use toml::Value;
use toml::Value::{Array as Arr, String as Str, Table as Tab};
use std::collections::HashMap;

verus! {

/// Hop count that stands for "unreachable".
pub const INFINITE_HOPS: usize = 16;

/// Next hop of an unreachable target.
pub const NONE_NODE: usize = usize::MAX;

/// A route to one target: the neighbour to go through and the hop count.
#[derive(Debug, Clone, Copy, PartialEq, Eq)]
pub struct DistanceVectorEntry {
    pub next: usize,
    pub hops: usize,
}

impl DistanceVectorEntry {
    /// The route a node knows before any exchange: one hop through the
    /// target itself when it is adjacent, unreachable otherwise.
    pub fn initial(target: (usize, bool)) -> (e: Self)
        ensures
            target.1 ==> e == (DistanceVectorEntry { next: target.0, hops: 1 }),
            !target.1 ==> e == (DistanceVectorEntry { next: NONE_NODE, hops: INFINITE_HOPS }),
    {
        let (node, is_adjacent) = target;
        if is_adjacent {
            DistanceVectorEntry { next: node, hops: 1 }
        } else {
            DistanceVectorEntry { next: NONE_NODE, hops: INFINITE_HOPS }
        }
    }
}

/// The initial route to target `t` for a node whose adjacency row is `row`.
pub open spec fn initial_entry(row: Seq<bool>, t: int) -> DistanceVectorEntry {
    if row[t] {
        DistanceVectorEntry { next: t as usize, hops: 1 }
    } else {
        DistanceVectorEntry { next: NONE_NODE, hops: INFINITE_HOPS }
    }
}

/// A node's routes, indexed by target.
#[derive(Debug)]
pub struct DistanceVector(pub Vec<DistanceVectorEntry>);

impl DistanceVector {
    /// The initial vector of a node whose adjacency row is `row`.
    pub fn from_adjacence_row(row: Vec<bool>) -> (dv: Self)
        ensures
            dv.0@.len() == row@.len(),
            forall|t: int| 0 <= t < row@.len() ==> dv.0@[t] == initial_entry(row@, t),
    {
        let mut entries: Vec<DistanceVectorEntry> = Vec::new();
        for i in 0..row.len()
            invariant
                entries@.len() == i,
                forall|t: int| 0 <= t < i ==> entries@[t] == initial_entry(row@, t),
        {
            entries.push(DistanceVectorEntry::initial((i, row[i])));
        }
        DistanceVector(entries)
    }

    /// A copy of the vector.
    pub fn duplicate(&self) -> (dv: Self)
        ensures
            dv.0@ == self.0@,
    {
        let mut entries: Vec<DistanceVectorEntry> = Vec::new();
        for i in 0..self.0.len()
            invariant
                entries@ == self.0@.take(i as int),
        {
            entries.push(self.0[i]);
            assert(self.0@.take(i + 1) == self.0@.take(i as int).push(self.0@[i as int]));
        }
        assert(self.0@.take(self.0@.len() as int) == self.0@);
        DistanceVector(entries)
    }
}

/// The route to target `t` after a node with route `mine` hears from
/// `neighbor` the route `other`: taken when it is finite and one hop through
/// the neighbour is shorter than the current route.
pub open spec fn relaxed_entry(
    mine: DistanceVectorEntry,
    other: DistanceVectorEntry,
    neighbor: usize,
) -> DistanceVectorEntry {
    if other.hops != INFINITE_HOPS && mine.hops > other.hops + 1 {
        DistanceVectorEntry { next: neighbor, hops: (other.hops + 1) as usize }
    } else {
        mine
    }
}

/// The vector `mine` after relaxing it against `other`, entry by entry over
/// the targets both vectors have.
pub open spec fn relaxed_vector(
    mine: Seq<DistanceVectorEntry>,
    other: Seq<DistanceVectorEntry>,
    neighbor: usize,
) -> Seq<DistanceVectorEntry> {
    Seq::new(
        mine.len(),
        |t: int|
            if t < other.len() {
                relaxed_entry(mine[t], other[t], neighbor)
            } else {
                mine[t]
            },
    )
}

/// A router: its distance vector and whether it has changes to announce.
pub struct Node {
    pub dv: DistanceVector,
    pub has_updates: bool,
}

impl Node {
    /// A router that knows only its adjacent nodes and has them to announce.
    pub fn from_adjacence_row(row: Vec<bool>) -> (node: Self)
        ensures
            node.has_updates,
            node.dv.0@.len() == row@.len(),
            forall|t: int| 0 <= t < row@.len() ==> node.dv.0@[t] == initial_entry(row@, t),
    {
        Node { dv: DistanceVector::from_adjacence_row(row), has_updates: true }
    }

    /// Relaxes the vector against the vector `dv` announced by `neighbor`;
    /// returns whether the node has changes to announce (changes from
    /// earlier that are not yet announced count).
    pub fn accept_distance_vector(&mut self, neighbor: usize, dv: &DistanceVector) -> (updated:
        bool)
        requires
            forall|t: int|
                0 <= t < old(self).dv.0@.len() && t < dv.0@.len() ==> dv.0@[t].hops < usize::MAX,
        ensures
            final(self).dv.0@ == relaxed_vector(old(self).dv.0@, dv.0@, neighbor),
            updated == final(self).has_updates,
            updated == (old(self).has_updates || final(self).dv.0@ != old(self).dv.0@),
    {
        let ghost before = self.dv.0@;
        let n = if self.dv.0.len() < dv.0.len() {
            self.dv.0.len()
        } else {
            dv.0.len()
        };
        let mut changed = false;
        for i in 0..n
            invariant
                n <= before.len(),
                n <= dv.0@.len(),
                self.dv.0@.len() == before.len(),
                forall|t: int| 0 <= t < i ==> self.dv.0@[t] == relaxed_entry(before[t], dv.0@[t], neighbor),
                forall|t: int| i <= t < before.len() ==> self.dv.0@[t] == before[t],
                forall|t: int|
                    0 <= t < before.len() && t < dv.0@.len() ==> dv.0@[t].hops < usize::MAX,
                changed == exists|t: int| 0 <= t < i && self.dv.0@[t] != before[t],
                self.has_updates == (old(self).has_updates || changed),
        {
            let other = dv.0[i];
            let mine = self.dv.0[i];
            if other.hops != INFINITE_HOPS && mine.hops > other.hops + 1 {
                self.dv.0.set(i, DistanceVectorEntry { next: neighbor, hops: other.hops + 1 });
                self.has_updates = true;
                changed = true;
                assert(self.dv.0@[i as int] != before[i as int]);
            }
        }
        assert(self.dv.0@ =~= relaxed_vector(before, dv.0@, neighbor));
        proof {
            if !changed {
                assert(self.dv.0@ =~= before);
            } else {
                let t = choose|t: int| 0 <= t < n && self.dv.0@[t] != before[t];
                assert(self.dv.0@[t] != before[t]);
            }
        }
        self.has_updates
    }

    /// Hands out the vector to announce; nothing is pending afterwards.
    pub fn take_distance_vector(&mut self) -> (dv: DistanceVector)
        ensures
            dv.0@ == old(self).dv.0@,
            final(self).dv.0@ == old(self).dv.0@,
            !final(self).has_updates,
    {
        self.has_updates = false;
        self.dv.duplicate()
    }
}

/// A random generator of the `rand` crate.
#[verifier::external_type_specification]
#[verifier::external_body]
pub struct ExThreadRng(rand::rngs::ThreadRng);

/// A handle to the thread-local generator: `rand::rng()`.
#[verifier::external_body]
fn thread_rng() -> rand::rngs::ThreadRng {
    rand::rng()
}

/// A uniformly drawn index below `bound`: `RngExt::random_range(0..bound)`,
/// which samples from the half-open range and panics only when it is empty.
#[verifier::external_body]
fn random_below(rng: &mut rand::rngs::ThreadRng, bound: usize) -> (r: usize)
    requires
        bound > 0,
    ensures
        r < bound,
{
    rand::RngExt::random_range(rng, 0..bound)
}

/// Nodes with updates to announce, served in random order.
pub struct UpdateQueue {
    queue: Vec<usize>,
    rng: rand::rngs::ThreadRng,
}

impl UpdateQueue {
    /// The waiting nodes.
    pub closed spec fn pending(&self) -> Seq<usize> {
        self.queue@
    }

    /// A queue that holds every node `0..nodes`.
    pub fn new_full(nodes: usize) -> (q: Self)
        ensures
            q.pending() == Seq::new(nodes as nat, |i: int| i as usize),
    {
        let mut queue: Vec<usize> = Vec::new();
        for i in 0..nodes
            invariant
                queue@ == Seq::new(i as nat, |j: int| j as usize),
        {
            queue.push(i);
            assert(queue@ =~= Seq::new((i + 1) as nat, |j: int| j as usize));
        }
        UpdateQueue { queue, rng: thread_rng() }
    }

    /// Whether `node` is waiting.
    fn contains(&self, node: usize) -> (found: bool)
        ensures
            found == self.pending().contains(node),
    {
        for i in 0..self.queue.len()
            invariant
                forall|j: int| 0 <= j < i ==> self.queue@[j] != node,
        {
            if self.queue[i] == node {
                return true;
            }
        }
        false
    }

    /// Adds `node` unless it is already waiting.
    pub fn add(&mut self, node: usize)
        ensures
            old(self).pending().contains(node) ==> final(self).pending() == old(self).pending(),
            !old(self).pending().contains(node) ==> final(self).pending() == old(
                self,
            ).pending().push(node),
    {
        if !self.contains(node) {
            self.queue.push(node);
        }
    }

    /// Takes a waiting node chosen at random; `None` when none waits. The
    /// node taken leaves the queue, whose last node moves into its place.
    pub fn take(&mut self) -> (node: Option<usize>)
        ensures
            old(self).pending().len() == 0 <==> node is None,
            old(self).pending().len() == 0 ==> *final(self) == *old(self),
            node matches Some(x) ==> exists|k: int|
                0 <= k < old(self).pending().len() && old(self).pending()[k] == x
                    && final(self).pending() == old(self).pending().update(
                    k,
                    old(self).pending().last(),
                ).drop_last(),
    {
        if self.queue.len() == 0 {
            return None;
        }
        let elem = random_below(&mut self.rng, self.queue.len());
        let ghost before = self.queue@;
        let x = self.queue.swap_remove(elem);
        assert(self.queue@ == before.update(elem as int, before.last()).drop_last());
        assert(before[elem as int] == x);
        assert(old(self).pending() == before);
        assert(0 <= elem < old(self).pending().len() && old(self).pending()[elem as int] == x
            && self.pending() == old(self).pending().update(
            elem as int,
            old(self).pending().last(),
        ).drop_last());
        Some(x)
    }
}


/// A value under a key of a channel table, as far as the topology reads it.
pub enum FieldValue {
    Text(String),
    Other,
}

/// An element of an array of the configuration.
pub enum ConfigElement {
    Text(String),
    Table(Vec<(String, FieldValue)>),
    Other,
}

/// A top-level value of the configuration.
pub enum ConfigEntry {
    Array(Vec<ConfigElement>),
    Other,
}

/// Why a configuration does not describe a network.
#[derive(Debug, Clone, Copy, PartialEq, Eq)]
pub enum TopologyError {
    /// No `hosts` field.
    NoHosts,
    /// `hosts` is not an array.
    HostsNotArray,
    /// An element of `hosts` is not a string.
    HostNotString,
    /// No `channels` field.
    NoChannels,
    /// `channels` is not an array.
    ChannelsNotArray,
    /// An element of `channels` is not a table.
    ChannelNotTable,
    /// A channel without a `from` field.
    NoFrom,
    /// A channel whose `from` is not a string.
    FromNotString,
    /// A channel whose `from` names no host.
    UnknownFrom,
    /// A channel without a `to` field.
    NoTo,
    /// A channel whose `to` is not a string.
    ToNotString,
    /// A channel whose `to` names no host.
    UnknownTo,
}

/// The value under the first occurrence of `key` in `table`.
pub open spec fn spec_lookup<V>(table: Seq<(String, V)>, key: Seq<char>) -> Option<V>
    decreases table.len(),
{
    if table.len() == 0 {
        None
    } else if table[0].0@ == key {
        Some(table[0].1)
    } else {
        spec_lookup(table.drop_first(), key)
    }
}

/// The position of the first occurrence of `key` in `table`.
fn find_key<V>(table: &Vec<(String, V)>, key: &String) -> (idx: Option<usize>)
    ensures
        match idx {
            Some(i) => i < table@.len() && table@[i as int].0@ == key@ && spec_lookup(table@, key@)
                == Some(table@[i as int].1),
            None => spec_lookup(table@, key@) is None,
        },
{
    let len = table.len();
    let mut i: usize = 0;
    assert(table@.subrange(0, len as int) =~= table@);
    while i < len
        invariant
            i <= len == table@.len(),
            spec_lookup(table@, key@) == spec_lookup(table@.subrange(i as int, len as int), key@),
        decreases len - i,
    {
        let ghost rest = table@.subrange(i as int, len as int);
        assert(rest[0] == table@[i as int]);
        if table[i].0 == *key {
            return Some(i);
        }
        assert(rest.drop_first() =~= table@.subrange(i + 1, len as int));
        i = i + 1;
    }
    None
}

/// Whether `i` is the last position of its name in `names`.
pub open spec fn is_last_occurrence(names: Seq<Seq<char>>, i: int) -> bool {
    forall|j: int| i < j < names.len() ==> names[j] != names[i]
}

/// The number of positions below `k` that are last occurrences.
pub open spec fn last_occurrences_below(names: Seq<Seq<char>>, k: nat) -> nat
    decreases k,
{
    if k == 0 {
        0
    } else {
        last_occurrences_below(names, (k - 1) as nat) + if is_last_occurrence(names, k - 1) {
            1nat
        } else {
            0nat
        }
    }
}

/// The number of distinct host names, which is the size of the network.
pub open spec fn distinct_names(names: Seq<Seq<char>>) -> nat {
    last_occurrences_below(names, names.len())
}

/// The index of host `name`: the last position where it occurs, if any.
pub open spec fn host_index(names: Seq<Seq<char>>, name: Seq<char>) -> Option<int> {
    if exists|i: int| 0 <= i < names.len() && names[i] == name && is_last_occurrence(names, i) {
        Some(choose|i: int| 0 <= i < names.len() && names[i] == name && is_last_occurrence(names, i))
    } else {
        None
    }
}

/// The host names of a `hosts` array, if all its elements are strings.
pub open spec fn host_names(elems: Seq<ConfigElement>) -> Option<Seq<Seq<char>>> {
    if forall|i: int| 0 <= i < elems.len() ==> elems[i] is Text {
        Some(Seq::new(elems.len(), |i: int| elems[i]->Text_0@))
    } else {
        None
    }
}

/// The hosts of a configuration, or why they cannot be read.
pub open spec fn config_hosts(table: Seq<(String, ConfigEntry)>) -> Result<Seq<Seq<char>>, TopologyError> {
    match spec_lookup(table, "hosts"@) {
        None => Err(TopologyError::NoHosts),
        Some(ConfigEntry::Other) => Err(TopologyError::HostsNotArray),
        Some(ConfigEntry::Array(elems)) => match host_names(elems@) {
            None => Err(TopologyError::HostNotString),
            Some(names) => Ok(names),
        },
    }
}

/// The channel list of a configuration, or why it cannot be read.
pub open spec fn config_channels(table: Seq<(String, ConfigEntry)>) -> Result<Seq<ConfigElement>, TopologyError> {
    match spec_lookup(table, "channels"@) {
        None => Err(TopologyError::NoChannels),
        Some(ConfigEntry::Other) => Err(TopologyError::ChannelsNotArray),
        Some(ConfigEntry::Array(elems)) => Ok(elems@),
    }
}

/// The host index an endpoint field of a channel names, or the error for a
/// missing field, a field that is not a string and a name that is no host.
pub open spec fn endpoint(
    names: Seq<Seq<char>>,
    fields: Seq<(String, FieldValue)>,
    key: Seq<char>,
    missing: TopologyError,
    not_string: TopologyError,
    unknown: TopologyError,
) -> Result<int, TopologyError> {
    match spec_lookup(fields, key) {
        None => Err(missing),
        Some(FieldValue::Other) => Err(not_string),
        Some(FieldValue::Text(name)) => match host_index(names, name@) {
            None => Err(unknown),
            Some(i) => Ok(i),
        },
    }
}

/// The link a channel element describes. `Err(None)` marks a link whose
/// endpoint index lies outside the network, which happens only when a host
/// name occurs twice.
pub open spec fn channel_link(names: Seq<Seq<char>>, elem: ConfigElement) -> Result<
    (int, int),
    Option<TopologyError>,
> {
    match elem {
        ConfigElement::Table(fields) => match endpoint(
            names,
            fields@,
            "from"@,
            TopologyError::NoFrom,
            TopologyError::FromNotString,
            TopologyError::UnknownFrom,
        ) {
            Err(e) => Err(Some(e)),
            Ok(from) => match endpoint(
                names,
                fields@,
                "to"@,
                TopologyError::NoTo,
                TopologyError::ToNotString,
                TopologyError::UnknownTo,
            ) {
                Err(e) => Err(Some(e)),
                Ok(to) => if from < distinct_names(names) && to < distinct_names(names) {
                    Ok((from, to))
                } else {
                    Err(None)
                },
            },
        },
        _ => Err(Some(TopologyError::ChannelNotTable)),
    }
}

/// The outcome of reading the channels in order: the first failure, if any.
pub open spec fn channels_outcome(names: Seq<Seq<char>>, elems: Seq<ConfigElement>) -> Result<
    (),
    Option<TopologyError>,
>
    decreases elems.len(),
{
    if elems.len() == 0 {
        Ok(())
    } else {
        match channel_link(names, elems[0]) {
            Err(e) => Err(e),
            Ok(_) => channels_outcome(names, elems.drop_first()),
        }
    }
}

/// Whether some channel links `a` and `b`, in either direction.
pub open spec fn linked(names: Seq<Seq<char>>, elems: Seq<ConfigElement>, a: int, b: int) -> bool {
    exists|k: int|
        0 <= k < elems.len() && (#[trigger] channel_link(names, elems[k]) == Ok::<
            (int, int),
            Option<TopologyError>,
        >((a, b)) || channel_link(names, elems[k]) == Ok::<(int, int), Option<TopologyError>>(
            (b, a),
        ))
}

/// What reading a configuration leads to: the host names and channels of a
/// network, an error, or `Err(None)` where reading would index past the network.
pub open spec fn config_outcome(table: Seq<(String, ConfigEntry)>) -> Result<
    (Seq<Seq<char>>, Seq<ConfigElement>),
    Option<TopologyError>,
> {
    match config_hosts(table) {
        Err(e) => Err(Some(e)),
        Ok(names) => match config_channels(table) {
            Err(e) => Err(Some(e)),
            Ok(elems) => match channels_outcome(names, elems) {
                Err(e) => Err(e),
                Ok(_) => Ok((names, elems)),
            },
        },
    }
}

/// The hosts of a network and which of them are linked.
pub struct Topology {
    hosts: Vec<String>,
    adj: Vec<Vec<bool>>,
}

/// `adj` is a symmetric `n` by `n` matrix.
pub open spec fn symmetric_square(adj: Seq<Vec<bool>>, n: nat) -> bool {
    &&& adj.len() == n
    &&& forall|i: int| 0 <= i < n ==> #[trigger] adj[i]@.len() == n
    &&& forall|i: int, j: int| 0 <= i < n && 0 <= j < n ==> adj[i]@[j] == adj[j]@[i]
}

impl Topology {
    #[verifier::type_invariant]
    spec fn inv(self) -> bool {
        symmetric_square(self.adj@, distinct_names(self.host_names()))
    }

    /// The host names in the order of the configuration.
    pub closed spec fn host_names(self) -> Seq<Seq<char>> {
        Seq::new(self.hosts@.len(), |i: int| self.hosts@[i]@)
    }

    /// Whether hosts `a` and `b` are linked.
    pub closed spec fn connected(self, a: int, b: int) -> bool {
        self.adj@[a]@[b]
    }

    /// The number of nodes of the network.
    pub open spec fn size(self) -> nat {
        distinct_names(self.host_names())
    }
}


/// The names held by a vector of strings.
pub open spec fn names_of(v: Seq<String>) -> Seq<Seq<char>> {
    Seq::new(v.len(), |i: int| v[i]@)
}

/// Two last occurrences of one name are the same position.
proof fn lemma_last_occurrence_unique(names: Seq<Seq<char>>, i: int, j: int)
    requires
        0 <= i < names.len(),
        0 <= j < names.len(),
        names[i] == names[j],
        is_last_occurrence(names, i),
        is_last_occurrence(names, j),
    ensures
        i == j,
{
    if i < j {
        assert(names[j] != names[i]);
    } else if j < i {
        assert(names[i] != names[j]);
    }
}

/// The host with name `name`: its last position in `hosts`.
fn find_host(hosts: &Vec<String>, name: &String) -> (idx: Option<usize>)
    ensures
        match idx {
            Some(i) => host_index(names_of(hosts@), name@) == Some(i as int),
            None => host_index(names_of(hosts@), name@) is None,
        },
{
    let ghost names = names_of(hosts@);
    let mut i = hosts.len();
    while i > 0
        invariant
            i <= hosts@.len(),
            names == names_of(hosts@),
            forall|j: int| i <= j < hosts@.len() ==> names[j] != name@,
        decreases i,
    {
        i = i - 1;
        if hosts[i] == *name {
            proof {
                assert(names[i as int] == name@);
                assert(is_last_occurrence(names, i as int));
                let k = choose|k: int|
                    0 <= k < names.len() && names[k] == name@ && is_last_occurrence(names, k);
                lemma_last_occurrence_unique(names, i as int, k);
            }
            return Some(i);
        }
    }
    None
}

/// Whether position `i` of `hosts` is the last occurrence of its name.
fn is_last_host(hosts: &Vec<String>, i: usize) -> (last: bool)
    requires
        i < hosts@.len(),
    ensures
        last == is_last_occurrence(names_of(hosts@), i as int),
{
    let ghost names = names_of(hosts@);
    let len = hosts.len();
    let mut j = i + 1;
    while j < hosts.len()
        invariant
            i < j <= hosts@.len(),
            names == names_of(hosts@),
            forall|k: int| i < k < j ==> names[k] != names[i as int],
        decreases hosts@.len() - j,
    {
        if hosts[j] == hosts[i] {
            assert(names[j as int] == names[i as int]);
            return false;
        }
        j = j + 1;
    }
    true
}

/// The number of distinct names in `hosts`.
fn count_distinct(hosts: &Vec<String>) -> (n: usize)
    ensures
        n == distinct_names(names_of(hosts@)),
{
    let mut n: usize = 0;
    for i in 0..hosts.len()
        invariant
            n == last_occurrences_below(names_of(hosts@), i as nat),
            n <= i,
    {
        if is_last_host(hosts, i) {
            n = n + 1;
        }
    }
    n
}

/// An `n` by `n` matrix of `false`.
fn unlinked(n: usize) -> (adj: Vec<Vec<bool>>)
    ensures
        adj@.len() == n,
        forall|i: int| 0 <= i < n ==> #[trigger] adj@[i]@.len() == n,
        forall|i: int, j: int| 0 <= i < n && 0 <= j < n ==> !adj@[i]@[j],
{
    let mut adj: Vec<Vec<bool>> = Vec::new();
    for i in 0..n
        invariant
            adj@.len() == i,
            forall|k: int| 0 <= k < i ==> #[trigger] adj@[k]@.len() == n,
            forall|k: int, j: int| 0 <= k < i && 0 <= j < n ==> !adj@[k]@[j],
    {
        let mut row: Vec<bool> = Vec::new();
        for j in 0..n
            invariant
                row@.len() == j,
                forall|k: int| 0 <= k < j ==> !row@[k],
        {
            row.push(false);
        }
        adj.push(row);
    }
    adj
}

/// The host index named by field `key` of a channel, as `endpoint` describes.
fn resolve_endpoint(
    hosts: &Vec<String>,
    fields: &Vec<(String, FieldValue)>,
    key: &String,
    missing: TopologyError,
    not_string: TopologyError,
    unknown: TopologyError,
) -> (res: Result<usize, TopologyError>)
    ensures
        match endpoint(names_of(hosts@), fields@, key@, missing, not_string, unknown) {
            Ok(i) => res == Ok::<usize, TopologyError>(i as usize),
            Err(e) => res == Err::<usize, TopologyError>(e),
        },
{
    match find_key(fields, key) {
        None => Err(missing),
        Some(k) => match &fields[k].1 {
            FieldValue::Other => Err(not_string),
            FieldValue::Text(name) => match find_host(hosts, name) {
                None => Err(unknown),
                Some(i) => Ok(i),
            },
        },
    }
}

/// Links have no direction.
proof fn lemma_linked_symmetric(names: Seq<Seq<char>>, elems: Seq<ConfigElement>, a: int, b: int)
    ensures
        linked(names, elems, a, b) == linked(names, elems, b, a),
{
    if linked(names, elems, a, b) {
        let k = choose|k: int|
            0 <= k < elems.len() && (#[trigger] channel_link(names, elems[k]) == Ok::<
                (int, int),
                Option<TopologyError>,
            >((a, b)) || channel_link(names, elems[k]) == Ok::<(int, int), Option<TopologyError>>(
                (b, a),
            ));
        assert(channel_link(names, elems[k]) == channel_link(names, elems[k]));
    }
    if linked(names, elems, b, a) {
        let k = choose|k: int|
            0 <= k < elems.len() && (#[trigger] channel_link(names, elems[k]) == Ok::<
                (int, int),
                Option<TopologyError>,
            >((b, a)) || channel_link(names, elems[k]) == Ok::<(int, int), Option<TopologyError>>(
                (a, b),
            ));
        assert(channel_link(names, elems[k]) == channel_link(names, elems[k]));
    }
}

/// The host names under `hosts`, or why they cannot be read.
fn read_hosts(table: &Vec<(String, ConfigEntry)>) -> (res: Result<Vec<String>, TopologyError>)
    ensures
        match config_hosts(table@) {
            Ok(names) => res matches Ok(h) && names_of(h@) == names,
            Err(e) => res == Err::<Vec<String>, TopologyError>(e),
        },
{
    let hosts_key = String::from_str("hosts");
    let hosts_at = match find_key(table, &hosts_key) {
        None => {
            return Err(TopologyError::NoHosts);
        },
        Some(i) => i,
    };
    let host_elems = match &table[hosts_at].1 {
        ConfigEntry::Other => {
            return Err(TopologyError::HostsNotArray);
        },
        ConfigEntry::Array(elems) => elems,
    };
    assert(spec_lookup(table@, "hosts"@) == Some(ConfigEntry::Array(*host_elems)));
    let mut hosts: Vec<String> = Vec::new();
    for i in 0..host_elems.len()
        invariant
            hosts@.len() == i,
            spec_lookup(table@, "hosts"@) == Some(ConfigEntry::Array(*host_elems)),
            forall|k: int| 0 <= k < i ==> host_elems@[k] is Text,
            forall|k: int| 0 <= k < i ==> #[trigger] hosts@[k]@ == host_elems@[k]->Text_0@,
    {
        match &host_elems[i] {
            ConfigElement::Text(name) => {
                hosts.push(name.clone());
            },
            _ => {
                assert(!(host_elems@[i as int] is Text));
                assert(host_names(host_elems@) is None);
                return Err(TopologyError::HostNotString);
            },
        }
    }
    assert(host_names(host_elems@) == Some(names_of(hosts@)));
    Ok(hosts)
}

/// The elements under `channels`, or why they cannot be read.
fn read_channels(table: &Vec<(String, ConfigEntry)>) -> (res: Result<&Vec<ConfigElement>, TopologyError>)
    ensures
        match config_channels(table@) {
            Ok(elems) => res matches Ok(c) && c@ == elems,
            Err(e) => res == Err::<&Vec<ConfigElement>, TopologyError>(e),
        },
{
    let channels_key = String::from_str("channels");
    let channels_at = match find_key(table, &channels_key) {
        None => {
            return Err(TopologyError::NoChannels);
        },
        Some(i) => i,
    };
    match &table[channels_at].1 {
        ConfigEntry::Other => Err(TopologyError::ChannelsNotArray),
        ConfigEntry::Array(elems) => {
            assert(spec_lookup(table@, "channels"@) == Some(ConfigEntry::Array(*elems)));
            Ok(elems)
        },
    }
}

/// The link one channel element describes, as `channel_link` gives it.
fn resolve_channel(hosts: &Vec<String>, n: usize, elem: &ConfigElement) -> (res: Result<
    (usize, usize),
    Option<TopologyError>,
>)
    requires
        n == distinct_names(names_of(hosts@)),
    ensures
        match channel_link(names_of(hosts@), *elem) {
            Ok((a, b)) => res == Ok::<(usize, usize), Option<TopologyError>>((a as usize, b as usize))
                && a < n && b < n,
            Err(e) => res == Err::<(usize, usize), Option<TopologyError>>(e),
        },
{
    let fields = match elem {
        ConfigElement::Table(fields) => fields,
        _ => {
            return Err(Some(TopologyError::ChannelNotTable));
        },
    };
    let from_key = String::from_str("from");
    let to_key = String::from_str("to");
    let from = match resolve_endpoint(
        hosts,
        fields,
        &from_key,
        TopologyError::NoFrom,
        TopologyError::FromNotString,
        TopologyError::UnknownFrom,
    ) {
        Ok(i) => i,
        Err(e) => {
            return Err(Some(e));
        },
    };
    let to = match resolve_endpoint(
        hosts,
        fields,
        &to_key,
        TopologyError::NoTo,
        TopologyError::ToNotString,
        TopologyError::UnknownTo,
    ) {
        Ok(i) => i,
        Err(e) => {
            return Err(Some(e));
        },
    };
    let host_count = hosts.len();
    proof {
        let names = names_of(hosts@);
        assert(names.len() == host_count);
        let ef = endpoint(names, fields@, "from"@, TopologyError::NoFrom, TopologyError::FromNotString, TopologyError::UnknownFrom);
        let et = endpoint(names, fields@, "to"@, TopologyError::NoTo, TopologyError::ToNotString, TopologyError::UnknownTo);
        assert(from_key@ == "from"@ && to_key@ == "to"@);
        assert(ef is Ok && et is Ok);
        assert(0 <= ef->Ok_0 < names.len() && 0 <= et->Ok_0 < names.len());
        assert(ef->Ok_0 == from as int && et->Ok_0 == to as int);
    }
    if from >= n || to >= n {
        return Err(None);
    }
    Ok((from, to))
}

/// After adding the link of channel `c`, the matrix records the links of
/// the first `c + 1` channels.
proof fn lemma_add_link(
    names: Seq<Seq<char>>,
    elems: Seq<ConfigElement>,
    c: int,
    n: int,
    from: int,
    to: int,
    before: Seq<Vec<bool>>,
    after: Seq<Vec<bool>>,
)
    requires
        0 <= c < elems.len(),
        0 <= from < n,
        0 <= to < n,
        channel_link(names, elems[c]) == Ok::<(int, int), Option<TopologyError>>((from, to)),
        before.len() == n,
        after.len() == n,
        forall|i: int| 0 <= i < n ==> #[trigger] before[i]@.len() == n,
        forall|a: int, b: int|
            0 <= a < n && 0 <= b < n ==> before[a]@[b] == linked(names, elems.take(c), a, b),
        forall|a: int, b: int|
            0 <= a < n && 0 <= b < n ==> after[a]@[b] == if (a == from && b == to) || (a == to
                && b == from) {
                true
            } else {
                before[a]@[b]
            },
    ensures
        forall|a: int, b: int|
            0 <= a < n && 0 <= b < n ==> after[a]@[b] == linked(names, elems.take(c + 1), a, b),
{
    let prefix = elems.take(c + 1);
    let shorter = elems.take(c);
    assert forall|a: int, b: int| 0 <= a < n && 0 <= b < n implies after[a]@[b] == linked(
        names,
        prefix,
        a,
        b,
    ) by {
        assert(prefix[c] == elems[c]);
        if (a == from && b == to) || (a == to && b == from) {
            assert(channel_link(names, prefix[c]) == Ok::<(int, int), Option<TopologyError>>(
                (from, to),
            ));
        } else {
            if linked(names, prefix, a, b) {
                let k = choose|k: int|
                    0 <= k < prefix.len() && (#[trigger] channel_link(names, prefix[k]) == Ok::<
                        (int, int),
                        Option<TopologyError>,
                    >((a, b)) || channel_link(names, prefix[k]) == Ok::<
                        (int, int),
                        Option<TopologyError>,
                    >((b, a)));
                assert(k != c);
                assert(prefix[k] == shorter[k]);
                assert(channel_link(names, shorter[k]) == channel_link(names, prefix[k]));
            }
            if linked(names, shorter, a, b) {
                let k = choose|k: int|
                    0 <= k < shorter.len() && (#[trigger] channel_link(names, shorter[k]) == Ok::<
                        (int, int),
                        Option<TopologyError>,
                    >((a, b)) || channel_link(names, shorter[k]) == Ok::<
                        (int, int),
                        Option<TopologyError>,
                    >((b, a)));
                assert(prefix[k] == shorter[k]);
                assert(channel_link(names, shorter[k]) == channel_link(names, prefix[k]));
            }
        }
    }
}

/// Sets entry (`i`, `j`) of a square matrix.
fn set_entry(adj: &mut Vec<Vec<bool>>, i: usize, j: usize)
    requires
        i < old(adj)@.len(),
        j < old(adj)@[i as int]@.len(),
    ensures
        final(adj)@.len() == old(adj)@.len(),
        forall|a: int| 0 <= a < old(adj)@.len() ==> #[trigger] final(adj)@[a]@.len() == old(
            adj,
        )@[a]@.len(),
        forall|a: int, b: int|
            0 <= a < old(adj)@.len() && 0 <= b < old(adj)@[a]@.len() ==> final(adj)@[a]@[b] == if a
                == i && b == j {
                true
            } else {
                old(adj)@[a]@[b]
            },
{
    let mut row: Vec<bool> = Vec::new();
    let width = adj[i].len();
    for k in 0..width
        invariant
            i < adj@.len(),
            width == adj@[i as int]@.len(),
            row@ == adj@[i as int]@.take(k as int),
    {
        row.push(adj[i][k]);
        assert(adj@[i as int]@.take(k + 1) == adj@[i as int]@.take(k as int).push(adj@[i as int]@[k as int]));
    }
    assert(adj@[i as int]@.take(adj@[i as int]@.len() as int) == adj@[i as int]@);
    row.set(j, true);
    adj.set(i, row);
}

/// The matrix of the links of all channels, or the first channel's error.
fn link_channels(hosts: &Vec<String>, n: usize, channels: &Vec<ConfigElement>) -> (res: Result<
    Vec<Vec<bool>>,
    TopologyError,
>)
    requires
        n == distinct_names(names_of(hosts@)),
        channels_outcome(names_of(hosts@), channels@) != Err::<(), Option<TopologyError>>(None),
    ensures
        match channels_outcome(names_of(hosts@), channels@) {
            Ok(_) => res matches Ok(adj) && {
                &&& adj@.len() == n
                &&& forall|i: int| 0 <= i < n ==> #[trigger] adj@[i]@.len() == n
                &&& forall|a: int, b: int|
                    0 <= a < n && 0 <= b < n ==> adj@[a]@[b] == linked(
                        names_of(hosts@),
                        channels@,
                        a,
                        b,
                    )
            },
            Err(e) => res == Err::<Vec<Vec<bool>>, TopologyError>(e->0),
        },
{
    let ghost names = names_of(hosts@);
    let ghost elems = channels@;
    let mut adj = unlinked(n);
    assert(elems.subrange(0, elems.len() as int) =~= elems);
    assert forall|a: int, b: int| 0 <= a < n && 0 <= b < n implies adj@[a]@[b] == linked(
        names,
        elems.take(0),
        a,
        b,
    ) by {}
    let mut c: usize = 0;
    while c < channels.len()
        invariant
            c <= elems.len(),
            elems == channels@,
            names == names_of(hosts@),
            n == distinct_names(names),
            channels_outcome(names, elems) == channels_outcome(
                names,
                elems.subrange(c as int, elems.len() as int),
            ),
            channels_outcome(names, elems) != Err::<(), Option<TopologyError>>(None),
            adj@.len() == n,
            forall|i: int| 0 <= i < n ==> #[trigger] adj@[i]@.len() == n,
            forall|a: int, b: int|
                0 <= a < n && 0 <= b < n ==> adj@[a]@[b] == linked(names, elems.take(c as int), a, b),
        decreases elems.len() - c,
    {
        let ghost rest = elems.subrange(c as int, elems.len() as int);
        assert(rest[0] == elems[c as int]);
        assert(rest.drop_first() =~= elems.subrange(c + 1, elems.len() as int));
        let (from, to) = match resolve_channel(hosts, n, &channels[c]) {
            Ok(link) => link,
            Err(Some(e)) => {
                return Err(e);
            },
            Err(None) => {
                proof {
                    assert(channels_outcome(names, rest) == Err::<(), Option<TopologyError>>(None));
                }
                return Err(TopologyError::UnknownTo);
            },
        };
        let ghost before = adj@;
        set_entry(&mut adj, from, to);
        set_entry(&mut adj, to, from);
        proof {
            lemma_add_link(names, elems, c as int, n as int, from as int, to as int, before, adj@);
        }
        c = c + 1;
    }
    assert(elems.take(elems.len() as int) =~= elems);
    Ok(adj)
}

/// The configuration a TOML text holds, as the topology reads it: each
/// top-level key with its array (of strings, tables of strings, or other
/// values) or another value; `None` where the `toml` crate refuses the text.
pub uninterp spec fn toml_table(text: Seq<char>) -> Option<Seq<(String, ConfigEntry)>>;

/// `text.parse::<toml::Table>()`, its values converted variant by variant
/// into `ConfigEntry`, `ConfigElement` and `FieldValue`: the result is named
/// `toml_table`. Nothing is stated of what the `toml` crate accepts.
#[verifier::external_body]
fn parse_config(text: &str) -> (table: Option<Vec<(String, ConfigEntry)>>)
    ensures
        match table {
            Some(t) => toml_table(text@) == Some(t@),
            None => toml_table(text@) is None,
        },
{
    let field = |v: Value| match v { Str(s) => FieldValue::Text(s), _ => FieldValue::Other };
    let element = |v: Value| match v {
        Str(s) => ConfigElement::Text(s),
        Tab(t) => ConfigElement::Table(t.into_iter().map(|(k, v)| (k, field(v))).collect()),
        _ => ConfigElement::Other,
    };
    Some(text.parse::<toml::Table>().ok()?.into_iter().map(|(k, v)| (k, match v {
        Arr(a) => ConfigEntry::Array(a.into_iter().map(element).collect()),
        _ => ConfigEntry::Other,
    })).collect())
}

/// Why a configuration text describes no network.
#[derive(Debug, Clone, Copy, PartialEq, Eq)]
pub enum ConfigError {
    /// The text is not TOML.
    NotToml,
    /// The TOML does not describe a network.
    Topology(TopologyError),
}

/// Reads the network from the text of a configuration file: `NotToml` where
/// the text is not TOML, else what `from_toml` reads from its table. `None`
/// where the table names a host twice so that a channel's host lies past the
/// network, which `from_toml` cannot read.
pub fn topology_from_text(text: &str) -> (res: Option<Result<Topology, ConfigError>>)
    ensures
        match toml_table(text@) {
            None => res == Some(Err::<Topology, ConfigError>(ConfigError::NotToml)),
            Some(table) => match config_outcome(table) {
                Ok((names, elems)) => res matches Some(Ok(t)) && {
                    &&& t.host_names() == names
                    &&& forall|a: int, b: int|
                        0 <= a < t.size() && 0 <= b < t.size() ==> t.connected(a, b) == linked(
                            names,
                            elems,
                            a,
                            b,
                        )
                },
                Err(Some(e)) => res == Some(Err::<Topology, ConfigError>(ConfigError::Topology(e))),
                Err(None) => res is None,
            },
        },
{
    let table = match parse_config(text) {
        None => {
            return Some(Err(ConfigError::NotToml));
        },
        Some(t) => t,
    };
    if !config_settled(&table) {
        return None;
    }
    match Topology::from_toml(&table) {
        Ok(t) => Some(Ok(t)),
        Err(e) => Some(Err(ConfigError::Topology(e))),
    }
}

/// Whether reading the configuration stays within the network: `false`
/// exactly where a channel names a host whose last position lies past the
/// number of distinct hosts (a host named twice), which `from_toml` cannot
/// read.
pub fn config_settled(table: &Vec<(String, ConfigEntry)>) -> (settled: bool)
    ensures
        settled == (config_outcome(table@) != Err::<(Seq<Seq<char>>, Seq<ConfigElement>), Option<TopologyError>>(
            None,
        )),
{
    let hosts = match read_hosts(table) {
        Ok(h) => h,
        Err(_) => {
            return true;
        },
    };
    let n = count_distinct(&hosts);
    let channels = match read_channels(table) {
        Ok(c) => c,
        Err(_) => {
            return true;
        },
    };
    let ghost names = names_of(hosts@);
    let ghost elems = channels@;
    assert(elems.subrange(0, elems.len() as int) =~= elems);
    let mut c: usize = 0;
    while c < channels.len()
        invariant
            c <= elems.len(),
            elems == channels@,
            names == names_of(hosts@),
            n == distinct_names(names),
            config_outcome(table@) == match channels_outcome(names, elems.subrange(c as int, elems.len() as int)) {
                Err(e) => Err::<(Seq<Seq<char>>, Seq<ConfigElement>), Option<TopologyError>>(e),
                Ok(_) => Ok((names, elems)),
            },
        decreases elems.len() - c,
    {
        let ghost rest = elems.subrange(c as int, elems.len() as int);
        assert(rest[0] == elems[c as int]);
        assert(rest.drop_first() =~= elems.subrange(c + 1, elems.len() as int));
        match resolve_channel(&hosts, n, &channels[c]) {
            Ok(_) => {},
            Err(Some(_)) => {
                return true;
            },
            Err(None) => {
                return false;
            },
        }
        c = c + 1;
    }
    true
}

impl Topology {
    /// Reads the network from a configuration: the strings under `hosts`
    /// name the hosts (a repeated name denotes its last position), and each
    /// table under `channels` links the hosts named by its `from` and `to`.
    /// The first problem met, in that order, is the error.
    pub fn from_toml(table: &Vec<(String, ConfigEntry)>) -> (res: Result<Topology, TopologyError>)
        requires
            config_outcome(table@) != Err::<(Seq<Seq<char>>, Seq<ConfigElement>), Option<TopologyError>>(None),
        ensures
            match config_outcome(table@) {
                Ok((names, elems)) => res matches Ok(t) && {
                    &&& t.host_names() == names
                    &&& forall|a: int, b: int|
                        0 <= a < t.size() && 0 <= b < t.size() ==> t.connected(a, b) == linked(
                            names,
                            elems,
                            a,
                            b,
                        )
                },
                Err(Some(e)) => res == Err::<Topology, TopologyError>(e),
                Err(None) => false,
            },
    {
        let hosts = match read_hosts(table) {
            Ok(h) => h,
            Err(e) => {
                return Err(e);
            },
        };
        let n = count_distinct(&hosts);
        let channels = match read_channels(table) {
            Ok(c) => c,
            Err(e) => {
                return Err(e);
            },
        };
        let adj = match link_channels(&hosts, n, channels) {
            Ok(adj) => adj,
            Err(e) => {
                return Err(e);
            },
        };
        let ghost names = names_of(hosts@);
        proof {
            assert forall|a: int, b: int| 0 <= a < n && 0 <= b < n implies adj@[a]@[b]
                == adj@[b]@[a] by {
                lemma_linked_symmetric(names, channels@, a, b);
            }
            assert(names =~= Seq::new(hosts@.len(), |i: int| hosts@[i]@));
        }
        Ok(Topology { hosts, adj })
    }
}


/// Whether `v` is among the neighbours listed for `u`.
pub open spec fn adjacent(nb: Seq<Vec<usize>>, u: int, v: int) -> bool {
    nb[u]@.contains(v as usize)
}

/// Whether a walk of exactly `k` links leads from `u` to `t`.
pub open spec fn walk(nb: Seq<Vec<usize>>, u: int, t: int, k: nat) -> bool
    decreases k,
{
    if k == 0 {
        u == t
    } else {
        exists|m: int| 0 <= m < nb.len() && #[trigger] adjacent(nb, u, m) && walk(nb, m, t, (k - 1) as nat)
    }
}

/// A route of node `u` to `t` is sound: its hop count lies between one and
/// "unreachable", an unreachable route has no next hop, and a finite route
/// leaves through a neighbour from which a walk of one link less leads to `t`.
pub open spec fn sound_route(nb: Seq<Vec<usize>>, u: int, t: int, e: DistanceVectorEntry) -> bool {
    &&& 1 <= e.hops <= INFINITE_HOPS
    &&& e.hops == INFINITE_HOPS ==> e.next == NONE_NODE
    &&& e.hops < INFINITE_HOPS ==> {
        &&& e.next < nb.len()
        &&& adjacent(nb, u, e.next as int)
        &&& walk(nb, e.next as int, t, (e.hops - 1) as nat)
    }
}

/// The running network: the routers, who neighbours whom, the queue of
/// routers with updates to announce, and the host names.
pub struct Graph {
    update_queue: UpdateQueue,
    neighbors: Vec<Vec<usize>>,
    nodes: Vec<Node>,
    names: HashMap<usize, String>,
}

impl Graph {
    /// Number of routers.
    pub closed spec fn size(self) -> nat {
        self.nodes@.len()
    }

    /// The neighbour lists, one per router.
    pub closed spec fn neighbor_lists(self) -> Seq<Vec<usize>> {
        self.neighbors@
    }

    /// Whether `u` and `v` are neighbours.
    pub open spec fn edge(self, u: int, v: int) -> bool {
        adjacent(self.neighbor_lists(), u, v)
    }

    /// The route of router `u` to target `t`.
    pub closed spec fn route(self, u: int, t: int) -> DistanceVectorEntry {
        self.nodes@[u].dv.0@[t]
    }

    /// The distance vector of router `u`.
    pub closed spec fn vector(self, u: int) -> Seq<DistanceVectorEntry> {
        self.nodes@[u].dv.0@
    }

    /// Whether router `u` has changes it has not announced.
    pub closed spec fn pending(self, u: int) -> bool {
        self.nodes@[u].has_updates
    }

    /// The routers waiting to announce.
    pub closed spec fn waiting(self) -> Seq<usize> {
        self.update_queue.pending()
    }

    /// The host name of router `i`, if it has one.
    pub closed spec fn name_of(self, i: int) -> Option<Seq<char>> {
        if 0 <= i <= usize::MAX && self.names@.contains_key(i as usize) {
            Some(self.names@[i as usize]@)
        } else {
            None
        }
    }

    /// The invariant every running network keeps: consistent sizes,
    /// symmetric and sorted neighbour lists, a duplicate-free queue of routers,
    /// and sound routes.
    pub closed spec fn wf(self) -> bool {
        let n = self.nodes@.len();
        let nb = self.neighbors@;
        &&& nb.len() == n
        &&& forall|u: int| 0 <= u < n ==> #[trigger] self.nodes@[u].dv.0@.len() == n
        &&& forall|u: int, j: int|
            0 <= u < n && 0 <= j < nb[u]@.len() ==> #[trigger] nb[u]@[j] < n
        &&& forall|u: int, j: int, k: int|
            0 <= u < n && 0 <= j < k < nb[u]@.len() ==> #[trigger] nb[u]@[j] < #[trigger] nb[u]@[k]
        &&& forall|u: int, v: int| 0 <= u < n && 0 <= v < n && adjacent(nb, u, v) ==> adjacent(nb, v, u)
        &&& forall|k: int| 0 <= k < self.update_queue.pending().len() ==> #[trigger] self.update_queue.pending()[k] < n
        &&& self.update_queue.pending().no_duplicates()
        &&& forall|u: int, t: int|
            0 <= u < n && 0 <= t < n ==> sound_route(nb, u, t, #[trigger] self.nodes@[u].dv.0@[t])
    }

    /// The neighbour lists of a running network name routers, each list in
    /// increasing order (so without repeats), and neighbourhood is mutual.
    pub proof fn lemma_neighbor_lists(self, u: int, j: int, k: int)
        requires
            self.wf(),
            0 <= u < self.size(),
        ensures
            self.neighbor_lists().len() == self.size(),
            0 <= j < self.neighbor_lists()[u]@.len() ==> self.neighbor_lists()[u]@[j] < self.size(),
            0 <= j < k < self.neighbor_lists()[u]@.len() ==> self.neighbor_lists()[u]@[j]
                < self.neighbor_lists()[u]@[k],
            0 <= j < self.size() && self.edge(u, j) ==> self.edge(j, u),
    {
    }

    /// Every route of a running network is sound.
    pub proof fn lemma_routes_sound(self, u: int, t: int)
        requires
            self.wf(),
            0 <= u < self.size(),
            0 <= t < self.size(),
        ensures
            sound_route(self.neighbor_lists(), u, t, self.route(u, t)),
    {
    }
}

/// The neighbours listed in row `row`, in increasing order.
fn neighbors_of(row: &Vec<bool>) -> (nb: Vec<usize>)
    ensures
        forall|j: int| 0 <= j < nb@.len() ==> #[trigger] nb@[j] < row@.len(),
        forall|j: int, k: int| 0 <= j < k < nb@.len() ==> #[trigger] nb@[j] < #[trigger] nb@[k],
        forall|v: int| 0 <= v < row@.len() ==> (nb@.contains(v as usize) <==> row@[v]),
{
    let mut nb: Vec<usize> = Vec::new();
    let mut i: usize = 0;
    while i < row.len()
        invariant
            i <= row@.len(),
            forall|j: int| 0 <= j < nb@.len() ==> #[trigger] nb@[j] < i,
            forall|j: int, k: int| 0 <= j < k < nb@.len() ==> #[trigger] nb@[j] < #[trigger] nb@[k],
            forall|v: int| 0 <= v < i ==> (nb@.contains(v as usize) <==> row@[v]),
        decreases row@.len() - i,
    {
        if row[i] {
            let ghost old_nb = nb@;
            nb.push(i);
            assert(nb@[nb@.len() - 1] == i);
            assert forall|v: int| 0 <= v < i + 1 implies (nb@.contains(v as usize) <==> row@[v]) by {
                if v < i {
                    if nb@.contains(v as usize) {
                        let k = choose|k: int| 0 <= k < nb@.len() && nb@[k] == v as usize;
                        assert(k < old_nb.len());
                        assert(old_nb[k] == v);
                    }
                    if old_nb.contains(v as usize) {
                        let k = choose|k: int| 0 <= k < old_nb.len() && old_nb[k] == v as usize;
                        assert(nb@[k] == v);
                    }
                }
            }
        } else {
            assert forall|v: int| 0 <= v < i + 1 implies (nb@.contains(v as usize) <==> row@[v]) by {
                if v == i && nb@.contains(v as usize) {
                    let k = choose|k: int| 0 <= k < nb@.len() && nb@[k] == v as usize;
                    assert(nb@[k] < i);
                }
            }
        }
        i = i + 1;
    }
    nb
}

/// A copy of a row of booleans.
fn copy_row(row: &Vec<bool>) -> (copy: Vec<bool>)
    ensures
        copy@ == row@,
{
    let mut copy: Vec<bool> = Vec::new();
    let mut i: usize = 0;
    while i < row.len()
        invariant
            i <= row@.len(),
            copy@ == row@.take(i as int),
        decreases row@.len() - i,
    {
        copy.push(row[i]);
        assert(row@.take(i + 1) == row@.take(i as int).push(row@[i as int]));
        i = i + 1;
    }
    assert(row@.take(row@.len() as int) == row@);
    copy
}

impl Graph {
    /// Sets up routing on a network: each router knows its adjacent nodes,
    /// every router waits to announce, and each host name is attached to the
    /// index of its last occurrence.
    #[verifier::spinoff_prover]
    pub fn from_graph(graph: Topology) -> (g: Self)
        ensures
            g.wf(),
            g.size() == graph.size(),
            forall|u: int, v: int|
                0 <= u < g.size() && 0 <= v < g.size() ==> (g.edge(u, v) <==> graph.connected(u, v)),
            forall|u: int, t: int|
                0 <= u < g.size() && 0 <= t < g.size() ==> g.route(u, t) == if graph.connected(u, t) {
                    DistanceVectorEntry { next: t as usize, hops: 1 }
                } else {
                    DistanceVectorEntry { next: NONE_NODE, hops: INFINITE_HOPS }
                },
            forall|u: int| 0 <= u < g.size() ==> g.pending(u),
            g.waiting() == Seq::new(g.size(), |i: int| i as usize),
            g.queue_matches_pending(),
            g.settling(),
            forall|i: int|
                0 <= i < graph.host_names().len() && is_last_occurrence(graph.host_names(), i)
                    ==> g.name_of(i) == Some(graph.host_names()[i]),
            forall|i: int|
                !(0 <= i < graph.host_names().len() && is_last_occurrence(graph.host_names(), i))
                    ==> g.name_of(i) is None,
    {
        broadcast use {
            vstd::std_specs::hash::axiom_usize_obeys_hash_table_key_model,
            vstd::std_specs::hash::axiom_random_state_builds_valid_hashers,
        };

        proof {
            use_type_invariant(&graph);
        }
        let n = graph.adj.len();
        let ghost adj = graph.adj@;
        let mut neighbors: Vec<Vec<usize>> = Vec::new();
        let mut nodes: Vec<Node> = Vec::new();
        let mut u: usize = 0;
        while u < n
            invariant
                u <= n,
                n == adj.len(),
                adj == graph.adj@,
                symmetric_square(adj, n as nat),
                neighbors@.len() == u,
                nodes@.len() == u,
                forall|a: int| 0 <= a < u ==> #[trigger] nodes@[a].dv.0@.len() == n,
                forall|a: int| 0 <= a < u ==> #[trigger] nodes@[a].has_updates,
                forall|a: int, t: int|
                    0 <= a < u && 0 <= t < n ==> #[trigger] nodes@[a].dv.0@[t] == initial_entry(adj[a]@, t),
                forall|a: int, j: int|
                    0 <= a < u && 0 <= j < neighbors@[a]@.len() ==> #[trigger] neighbors@[a]@[j] < n,
                forall|a: int, j: int, k: int|
                    0 <= a < u && 0 <= j < k < neighbors@[a]@.len() ==> #[trigger] neighbors@[a]@[j]
                        < #[trigger] neighbors@[a]@[k],
                forall|a: int, v: int|
                    0 <= a < u && 0 <= v < n ==> (adjacent(neighbors@, a, v) <==> adj[a]@[v]),
            decreases n - u,
        {
            let row = &graph.adj[u];
            let ghost old_neighbors = neighbors@;
            let row_nb = neighbors_of(row);
            neighbors.push(row_nb);
            assert forall|a: int, v: int| 0 <= a < u + 1 && 0 <= v < n implies (adjacent(
                neighbors@,
                a,
                v,
            ) <==> adj[a]@[v]) by {
                if a < u {
                    assert(neighbors@[a] == old_neighbors[a]);
                    assert(adjacent(old_neighbors, a, v) <==> adj[a]@[v]);
                } else {
                    assert(neighbors@[a] == row_nb);
                    assert(row@ == adj[u as int]@);
                    assert(v < row@.len());
                    assert(row_nb@.contains(v as usize) <==> row@[v]);
                }
            }
            nodes.push(Node::from_adjacence_row(copy_row(row)));
            u = u + 1;
        }
        let mut names: HashMap<usize, String> = HashMap::new();
        let mut i: usize = 0;
        let ghost host_names = graph.host_names();
        while i < graph.hosts.len()
            invariant
                i <= graph.hosts@.len(),
                host_names == graph.host_names(),
                forall|k: usize|
                    #[trigger] names@.contains_key(k) ==> k < i && host_names[k as int] == names@[k]@
                        && is_last_occurrence(host_names, k as int),
                forall|j: usize|
                    j < i && is_last_occurrence(host_names, j as int) ==> #[trigger] names@.contains_key(j),
            decreases graph.hosts@.len() - i,
        {
            if is_last_host(&graph.hosts, i) {
                assert(names_of(graph.hosts@) =~= host_names);
                names.insert(i, graph.hosts[i].clone());
            } else {
                assert(names_of(graph.hosts@) =~= host_names);
            }
            i = i + 1;
        }
        let g = Graph { update_queue: UpdateQueue::new_full(n), neighbors, nodes, names };
        proof {
            let nb = g.neighbors@;
            assert forall|a: int, v: int| 0 <= a < n && 0 <= v < n && adjacent(nb, a, v) implies adjacent(
                nb,
                v,
                a,
            ) by {}
            assert forall|k: int| 0 <= k < g.update_queue.pending().len() implies #[trigger] g.update_queue.pending()[k]
                < n by {}
            assert forall|a: int, t: int| 0 <= a < n && 0 <= t < n implies sound_route(
                nb,
                a,
                t,
                #[trigger] g.nodes@[a].dv.0@[t],
            ) by {
                if adj[a]@[t] {
                    assert(adjacent(nb, a, t));
                    assert(walk(nb, t, t, 0));
                    assert(walk(nb, a, t, 1));
                }
            }
            assert forall|v: usize| v < g.size() implies (g.pending(v as int) <==> #[trigger] g.waiting().contains(v)) by {
                assert(g.waiting()[v as int] == v);
            }
            assert forall|a: int, t: int| 0 <= a < g.size() && 0 <= t < g.size() && g.edge(a, t) implies #[trigger] g.route(
                a,
                t,
            ).hops <= 1 by {
                assert(adj[a]@[t]);
            }
            assert forall|i: int|
                0 <= i < graph.host_names().len() && is_last_occurrence(graph.host_names(), i)
                implies g.name_of(i) == Some(graph.host_names()[i]) by {
                assert(graph.host_names().len() == graph.hosts@.len());
                let k = i as usize;
                assert(k as int == i);
                assert(g.names@.contains_key(k));
            }
            assert forall|i: int|
                !(0 <= i < graph.host_names().len() && is_last_occurrence(graph.host_names(), i))
                implies g.name_of(i) is None by {
                assert(graph.host_names().len() == graph.hosts@.len());
                if 0 <= i <= usize::MAX && g.names@.contains_key(i as usize) {
                    let k = i as usize;
                    assert(k as int == i);
                    assert(names@.contains_key(k));
                }
            }
        }
        g
    }
}


/// A route relaxed against a sound route of neighbour `x` stays sound.
proof fn lemma_relaxed_route_sound(
    nb: Seq<Vec<usize>>,
    u: int,
    t: int,
    x: usize,
    mine: DistanceVectorEntry,
    other: DistanceVectorEntry,
)
    requires
        0 <= x < nb.len(),
        adjacent(nb, u, x as int),
        sound_route(nb, u, t, mine),
        sound_route(nb, x as int, t, other),
    ensures
        sound_route(nb, u, t, relaxed_entry(mine, other, x)),
{
    if other.hops != INFINITE_HOPS && mine.hops > other.hops + 1 {
        assert(walk(nb, x as int, t, other.hops as nat));
        assert(walk(nb, u, t, (other.hops + 1) as nat));
    }
}

impl Graph {
    /// Whether router `u` has been handed the announcement of `x` once the
    /// first `j` neighbours of `x` are served.
    spec fn served(nbx: Seq<usize>, j: int, u: int) -> bool {
        nbx.take(j).contains(u as usize)
    }

    /// One round of the protocol: a waiting router, chosen at random, announces
    /// its vector to its neighbours; each neighbour relaxes its own vector
    /// against it, and a neighbour left with changes to announce joins the
    /// queue. Returns the announcing router, or `None` when none waits.
    #[verifier::spinoff_prover]
    pub fn step(&mut self) -> (notifier: Option<usize>)
        requires
            old(self).wf(),
        ensures
            final(self).wf(),
            final(self).size() == old(self).size(),
            final(self).neighbor_lists() == old(self).neighbor_lists(),
            forall|i: int| #[trigger] final(self).name_of(i) == old(self).name_of(i),
            notifier is None <==> old(self).waiting().len() == 0,
            notifier is None ==> *final(self) == *old(self),
            notifier is None ==> {
                &&& forall|u: int| 0 <= u < old(self).size() ==> #[trigger] final(self).vector(u) == old(self).vector(u)
                &&& forall|u: int| 0 <= u < old(self).size() ==> #[trigger] final(self).pending(u) == old(self).pending(u)
                &&& final(self).waiting() == old(self).waiting()
            },
            notifier matches Some(x) ==> {
                &&& old(self).waiting().contains(x)
                &&& forall|u: int|
                    0 <= u < old(self).size() ==> #[trigger] final(self).vector(u) == if old(self).edge(x as int, u) {
                        relaxed_vector(old(self).vector(u), old(self).vector(x as int), x)
                    } else {
                        old(self).vector(u)
                    }
                &&& forall|u: int|
                    0 <= u < old(self).size() ==> #[trigger] final(self).pending(u) == ((u != x && old(self).pending(u))
                        || (old(self).edge(x as int, u) && final(self).vector(u) != old(self).vector(u)))
                &&& forall|v: usize|
                    #[trigger] final(self).waiting().contains(v) <==> ((old(self).waiting().contains(v) && v != x)
                        || (v < old(self).size() && old(self).edge(x as int, v as int) && final(self).pending(v as int)))
            },
            old(self).queue_matches_pending() ==> final(self).queue_matches_pending(),
            old(self).settling() ==> final(self).settling(),
            old(self).queue_matches_pending() && notifier is Some ==> final(self).waiting().len()
                + final(self).total_hops() < old(self).waiting().len() + old(self).total_hops(),
            old(self).queue_matches_pending() && notifier is Some ==> {
                &&& final(self).total_hops() <= old(self).total_hops()
                &&& final(self).total_hops() == old(self).total_hops() ==> final(self).waiting().len() < old(
                    self,
                ).waiting().len()
            },
    {
        let ghost n = self.nodes@.len();
        let ghost nb = self.neighbors@;
        let ghost old_vectors = Seq::new(n, |u: int| self.nodes@[u].dv.0@);
        let ghost old_pending = Seq::new(n, |u: int| self.nodes@[u].has_updates);
        let ghost old_waiting = self.update_queue.pending();
        let ghost old_names = self.names@;
        let x = match self.update_queue.take() {
            None => {
                proof {
                    assert(self.waiting() == old(self).waiting());
                    assert(self.nodes == old(self).nodes);
                    if old(self).settling() {
                        assert forall|u: int| 0 <= u < self.size() implies #[trigger] self.vector(u) == old(self).vector(u) by {}
                        assert forall|u: int| 0 <= u < self.size() implies #[trigger] self.pending(u) == old(self).pending(u) by {}
                        assert forall|u: int, t: int| 0 <= u < self.size() && 0 <= t < self.size() implies #[trigger] self.route(u, t) == old(self).route(u, t) by {}
                        assert(self.neighbors == old(self).neighbors);
                        assert forall|u: int, t: int| 0 <= u < self.size() && 0 <= t < self.size() && self.edge(u, t)
                            implies #[trigger] self.route(u, t).hops <= 1 by {
                            assert(old(self).edge(u, t));
                            assert(old(self).route(u, t).hops <= 1);
                        }
                        assert forall|u: int, v: int| 0 <= u < self.size() && 0 <= v < self.size() && self.edge(u, v)
                            && !self.pending(v) implies #[trigger] self.relaxed_against(u, v) by {
                            assert(old(self).edge(u, v) && !old(self).pending(v));
                            assert(old(self).relaxed_against(u, v));
                            assert(self.vector(u) == old(self).vector(u) && self.vector(v) == old(self).vector(v));
                        }
                    }
                    if old(self).queue_matches_pending() {
                        assert forall|v: usize| v < self.size() implies (self.pending(v as int)
                            <==> #[trigger] self.waiting().contains(v)) by {
                            assert(old(self).pending(v as int) <==> old(self).waiting().contains(v));
                        }
                    }
                }
                return None;
            },
            Some(x) => x,
        };
        proof {
            let k = choose|k: int|
                0 <= k < old_waiting.len() && old_waiting[k] == x && self.update_queue.pending()
                    == old_waiting.update(k, old_waiting.last()).drop_last();
            assert(old_waiting[k] == x);
            assert(x < n);
            assert forall|v: usize| self.update_queue.pending().contains(v) <==> (old_waiting.contains(v) && v != x) by {
                let q = self.update_queue.pending();
                if q.contains(v) {
                    let i = choose|i: int| 0 <= i < q.len() && q[i] == v;
                    if i == k {
                        assert(old_waiting[old_waiting.len() - 1] == v);
                        assert(old_waiting.len() - 1 != k);
                    } else {
                        assert(old_waiting[i] == v);
                        assert(i != k);
                    }
                }
                if old_waiting.contains(v) && v != x {
                    let i = choose|i: int| 0 <= i < old_waiting.len() && old_waiting[i] == v;
                    assert(i != k);
                    if i == old_waiting.len() - 1 {
                        assert(q[k] == v);
                    } else {
                        assert(q[i] == v);
                    }
                }
            }
            assert forall|i: int, j: int| 0 <= i < j < self.update_queue.pending().len() implies
                self.update_queue.pending()[i] != self.update_queue.pending()[j] by {
                let last = old_waiting.len() - 1;
                let ii = if i == k { last } else { i };
                let jj = if j == k { last } else { j };
                assert(ii != jj);
                assert(self.update_queue.pending()[i] == old_waiting[ii]);
                assert(self.update_queue.pending()[j] == old_waiting[jj]);
            }
        }
        let dv = self.nodes[x].take_distance_vector();
        let ghost vx = dv.0@;
        assert(vx == old_vectors[x as int]);
        let node_count = self.nodes.len();
        assert(n == node_count);
        let nbx = &self.neighbors[x];
        let deg = nbx.len();
        let mut j: usize = 0;
        while j < deg
            invariant
                j <= deg == nbx@.len(),
                x < n,
                n <= usize::MAX,
                self.nodes@.len() == n,
                self.neighbors@ == nb,
                nbx@ == nb[x as int]@,
                vx == dv.0@,
                vx == old_vectors[x as int],
                self.names@ == old_names,
                old_vectors.len() == n,
                old_pending.len() == n,
                nb.len() == n,
                forall|u: int, i: int| 0 <= u < n && 0 <= i < nb[u]@.len() ==> #[trigger] nb[u]@[i] < n,
                forall|u: int, i: int, k: int|
                    0 <= u < n && 0 <= i < k < nb[u]@.len() ==> #[trigger] nb[u]@[i] < #[trigger] nb[u]@[k],
                forall|u: int, v: int| 0 <= u < n && 0 <= v < n && adjacent(nb, u, v) ==> adjacent(nb, v, u),
                forall|u: int| 0 <= u < n ==> #[trigger] old_vectors[u].len() == n,
                forall|u: int, t: int| 0 <= u < n && 0 <= t < n ==> sound_route(nb, u, t, #[trigger] old_vectors[u][t]),
                forall|u: int| 0 <= u < n ==> #[trigger] self.nodes@[u].dv.0@ == if Self::served(nbx@, j as int, u) {
                    relaxed_vector(old_vectors[u], vx, x)
                } else {
                    old_vectors[u]
                },
                forall|u: int| 0 <= u < n ==> #[trigger] self.nodes@[u].has_updates == ((u != x && old_pending[u])
                    || (Self::served(nbx@, j as int, u) && self.nodes@[u].dv.0@ != old_vectors[u])),
                forall|v: usize| #[trigger] self.update_queue.pending().contains(v) <==> ((old_waiting.contains(v) && v != x)
                    || (v < n && Self::served(nbx@, j as int, v as int) && self.nodes@[v as int].has_updates)),
                forall|k: int| 0 <= k < self.update_queue.pending().len() ==> #[trigger] self.update_queue.pending()[k] < n,
                self.update_queue.pending().no_duplicates(),
                forall|u: int, t: int| 0 <= u < n && 0 <= t < n ==> sound_route(nb, u, t, #[trigger] self.nodes@[u].dv.0@[t]),
            decreases deg - j,
        {
            let u = nbx[j];
            assert(nb[x as int]@[j as int] == u);
            assert(adjacent(nb, x as int, u as int));
            assert(adjacent(nb, u as int, x as int));
            assert(!Self::served(nbx@, j as int, u as int)) by {
                if nbx@.take(j as int).contains(u) {
                    let i = choose|i: int| 0 <= i < j && nbx@.take(j as int)[i] == u;
                    assert(nbx@[i] < nbx@[j as int]);
                }
            }
            assert(nbx@.take(j + 1) == nbx@.take(j as int).push(u));
            let ghost before_u = self.nodes@[u as int].dv.0@;
            let ghost queue_before = self.update_queue.pending();
            let changed = self.nodes[u].accept_distance_vector(x, &dv);
            if changed {
                self.update_queue.add(u);
            }
            proof {
                let pre = nbx@.take(j as int);
                let post = nbx@.take(j + 1);
                assert forall|w: int| 0 <= w < n implies Self::served(nbx@, j + 1, w) == (Self::served(nbx@, j as int, w)
                    || w == u) by {
                    if post.contains(w as usize) {
                        let i = choose|i: int| 0 <= i < post.len() && post[i] == w as usize;
                        if i < j {
                            assert(pre[i] == w as usize);
                        }
                    }
                    if pre.contains(w as usize) {
                        let i = choose|i: int| 0 <= i < pre.len() && pre[i] == w as usize;
                        assert(post[i] == w as usize);
                    }
                    if w == u {
                        assert(post[j as int] == u);
                    }
                }
                assert forall|v: usize| #[trigger] self.update_queue.pending().contains(v) <==> ((old_waiting.contains(v) && v != x)
                    || (v < n && Self::served(nbx@, j + 1, v as int) && self.nodes@[v as int].has_updates)) by {
                    if v < n {
                        assert(Self::served(nbx@, j + 1, v as int) == (Self::served(nbx@, j as int, v as int) || v == u));
                    }
                    if changed && !queue_before.contains(u) {
                        let q = self.update_queue.pending();
                        assert(q == queue_before.push(u));
                        if q.contains(v) {
                            let i = choose|i: int| 0 <= i < q.len() && q[i] == v;
                            if i < queue_before.len() {
                                assert(queue_before[i] == v);
                            }
                        }
                        if queue_before.contains(v) {
                            let i = choose|i: int| 0 <= i < queue_before.len() && queue_before[i] == v;
                            assert(q[i] == v);
                        }
                        if v == u {
                            assert(q[q.len() - 1] == u);
                        }
                    }
                }
                assert forall|k: int| 0 <= k < self.update_queue.pending().len() implies #[trigger] self.update_queue.pending()[k] < n by {
                    if changed && !queue_before.contains(u) {
                        assert(self.update_queue.pending() == queue_before.push(u));
                    }
                }
                assert(self.update_queue.pending().no_duplicates()) by {
                    if changed && !queue_before.contains(u) {
                        let q = self.update_queue.pending();
                        assert(q == queue_before.push(u));
                        assert forall|a: int, b: int| 0 <= a < b < q.len() implies q[a] != q[b] by {
                            if b == q.len() - 1 {
                                assert(queue_before[a] == q[a]);
                            }
                        }
                    }
                }
                assert forall|t: int| 0 <= t < n implies sound_route(nb, u as int, t, #[trigger] self.nodes@[u as int].dv.0@[t]) by {
                    lemma_relaxed_route_sound(nb, u as int, t, x, old_vectors[u as int][t], vx[t]);
                }
            }
            j = j + 1;
        }
        proof {
            assert(nbx@.take(deg as int) == nbx@);
            assert forall|u: int| 0 <= u < n implies Self::served(nbx@, deg as int, u) == adjacent(nb, x as int, u) by {}
            if old(self).queue_matches_pending() {
                lemma_round_progress(*old(self), *self, x);
            }
            if old(self).settling() {
                lemma_round_settling(*old(self), *self, x);
            }
        }
        Some(x)
    }
}

impl Graph {
    /// Runs rounds until no router has changes to announce, and returns the
    /// routers that announced, one per round, in order: the list is the
    /// sequence of rounds that led from the network to the result. Whatever
    /// order the queue is served in, the result is settled (every router is
    /// relaxed against each neighbour), each route is sound, and no walk
    /// between two routers is shorter than the route: the hop counts are the
    /// shortest distances, capped at `INFINITE_HOPS`, and the next hop of a
    /// finite route starts a shortest walk. There are at most
    /// `n + 15 * n * n` rounds for `n` routers.
    pub fn run(&mut self) -> (announced: Vec<usize>)
        requires
            old(self).wf(),
            old(self).queue_matches_pending(),
            old(self).settling(),
        ensures
            forall|u: int, v: int|
                0 <= u < final(self).size() && 0 <= v < final(self).size() && final(self).edge(u, v)
                    ==> #[trigger] final(self).relaxed_against(u, v),
            forall|u: int, t: int, k: nat|
                0 <= u < final(self).size() && 0 <= t < final(self).size() && u != t && #[trigger] walk(
                    final(self).neighbor_lists(),
                    u,
                    t,
                    k,
                ) ==> final(self).route(u, t).hops <= k,
            forall|u: int, t: int|
                0 <= u < final(self).size() && 0 <= t < final(self).size() ==> sound_route(
                    final(self).neighbor_lists(),
                    u,
                    t,
                    #[trigger] final(self).route(u, t),
                ),
            announced@.len() + final(self).total_hops() <= old(self).waiting().len() + old(self).total_hops(),
            announced@.len() <= final(self).size() + 15 * final(self).size() * final(self).size(),
            exists|states: Seq<Graph>|
                {
                    &&& states.len() == announced@.len() + 1
                    &&& states[0] == *old(self)
                    &&& states.last() == *final(self)
                    &&& forall|k: int| 0 <= k < announced@.len() ==> #[trigger] round(states[k], states[k + 1], announced@[k])
                },
            old(self).waiting().len() > 0 <==> announced@.len() > 0,
            announced@.len() > 0 ==> old(self).waiting().contains(announced@[0]),
            final(self).wf(),
            final(self).queue_matches_pending(),
            final(self).waiting().len() == 0,
            forall|v: usize| v < final(self).size() ==> !#[trigger] final(self).pending(v as int),
            final(self).size() == old(self).size(),
            final(self).neighbor_lists() == old(self).neighbor_lists(),
            forall|i: int| #[trigger] final(self).name_of(i) == old(self).name_of(i),
            forall|k: int| 0 <= k < announced@.len() ==> #[trigger] announced@[k] < final(self).size(),
    {
        let mut announced: Vec<usize> = Vec::new();
        let ghost mut states: Seq<Graph> = seq![*self];
        loop
            invariant
                states.len() == announced@.len() + 1,
                states[0] == *old(self),
                states.last() == *self,
                forall|k: int| 0 <= k < announced@.len() ==> #[trigger] round(states[k], states[k + 1], announced@[k]),
                self.wf(),
                self.queue_matches_pending(),
                self.settling(),
                announced@.len() + self.waiting().len() + self.total_hops() <= old(self).waiting().len()
                    + old(self).total_hops(),
                announced@.len() == 0 ==> self.waiting() == old(self).waiting(),
                announced@.len() > 0 ==> old(self).waiting().contains(announced@[0]),
                self.size() == old(self).size(),
                self.neighbor_lists() == old(self).neighbor_lists(),
                forall|i: int| #[trigger] self.name_of(i) == old(self).name_of(i),
                forall|k: int| 0 <= k < announced@.len() ==> #[trigger] announced@[k] < self.size(),
            ensures
                self.waiting().len() == 0,
            decreases self.total_hops(), self.waiting().len(),
        {
            let ghost before = *self;
            match self.step() {
                None => {
                    break;
                },
                Some(x) => {
                    let ghost prior = states;
                    announced.push(x);
                    proof {
                        assert(round(before, *self, x));
                        states = prior.push(*self);
                        assert forall|k: int| 0 <= k < announced@.len() implies #[trigger] round(
                            states[k],
                            states[k + 1],
                            announced@[k],
                        ) by {
                            if k < announced@.len() - 1 {
                                assert(states[k] == prior[k] && states[k + 1] == prior[k + 1]);
                            } else {
                                assert(states[k] == before && states[k + 1] == *self);
                            }
                        }
                    }
                },
            }
        }
        assert forall|v: usize| v < self.size() implies !#[trigger] self.pending(v as int) by {
            assert(!self.waiting().contains(v));
        }
        let count = self.nodes.len();
        assert(count == self.size());
        proof {
            lemma_total_hops_bounds(*self);
            lemma_total_hops_bounds(*old(self));
            lemma_waiting_at_most_size(*old(self));
            let n = self.size();
            assert(16 * n * n == n * n + 15 * n * n) by (nonlinear_arith);
        }
        assert forall|u: int, v: int|
            0 <= u < self.size() && 0 <= v < self.size() && self.edge(u, v) implies #[trigger] self.relaxed_against(u, v) by {
            let w = v as usize;
            assert(w as int == v);
            assert(!self.pending(w as int));
        }
        assert forall|u: int, t: int, k: nat|
            0 <= u < self.size() && 0 <= t < self.size() && u != t && #[trigger] walk(self.neighbor_lists(), u, t, k)
            implies self.route(u, t).hops <= k by {
            lemma_no_shorter_walk(*self, u, t, k);
        }
        assert forall|u: int, t: int| 0 <= u < self.size() && 0 <= t < self.size() implies sound_route(
            self.neighbor_lists(),
            u,
            t,
            #[trigger] self.route(u, t),
        ) by {
            self.lemma_routes_sound(u, t);
        }
        announced
    }

    /// The number of routers.
    pub fn node_count(&self) -> (n: usize)
        ensures
            n == self.size(),
    {
        self.nodes.len()
    }

    /// The host name of router `i`, where it has one.
    pub fn name(&self, i: usize) -> (name: Option<String>)
        requires
            self.wf(),
        ensures
            match name {
                Some(s) => self.name_of(i as int) == Some(s@),
                None => self.name_of(i as int) is None,
            },
    {
        broadcast use vstd::std_specs::hash::group_hash_axioms;

        match self.names.get(&i) {
            Some(n) => Some(n.clone()),
            None => None,
        }
    }

    /// The route of router `u` to target `t`.
    pub fn route_entry(&self, u: usize, t: usize) -> (e: DistanceVectorEntry)
        requires
            self.wf(),
            u < self.size(),
            t < self.size(),
        ensures
            e == self.route(u as int, t as int),
    {
        let dv = &self.nodes[u].dv;
        dv.0[t]
    }
}

/// The sum of the hop counts of a vector.
pub open spec fn vector_hops(v: Seq<DistanceVectorEntry>) -> nat
    decreases v.len(),
{
    if v.len() == 0 {
        0
    } else {
        vector_hops(v.drop_last()) + v.last().hops as nat
    }
}

/// Relaxing only ever lowers a hop count, and changes an entry only by
/// lowering it.
pub open spec fn lowers(a: Seq<DistanceVectorEntry>, b: Seq<DistanceVectorEntry>) -> bool {
    &&& a.len() == b.len()
    &&& forall|t: int| 0 <= t < a.len() ==> #[trigger] a[t].hops <= b[t].hops
    &&& forall|t: int| 0 <= t < a.len() && #[trigger] a[t] != b[t] ==> a[t].hops < b[t].hops
}

/// A relaxed vector lowers the vector it relaxes.
proof fn lemma_relaxed_lowers(mine: Seq<DistanceVectorEntry>, other: Seq<DistanceVectorEntry>, x: usize)
    ensures
        lowers(relaxed_vector(mine, other, x), mine),
{
}

/// Lowering entries lowers the sum, strictly where anything changed.
proof fn lemma_vector_hops_lowered(a: Seq<DistanceVectorEntry>, b: Seq<DistanceVectorEntry>)
    requires
        lowers(a, b),
    ensures
        vector_hops(a) <= vector_hops(b),
        a != b ==> vector_hops(a) < vector_hops(b),
    decreases a.len(),
{
    if a.len() > 0 {
        let (a0, b0) = (a.drop_last(), b.drop_last());
        assert forall|t: int| 0 <= t < a0.len() implies #[trigger] a0[t].hops <= b0[t].hops by {
            assert(a0[t] == a[t] && b0[t] == b[t]);
        }
        assert forall|t: int| 0 <= t < a0.len() && #[trigger] a0[t] != b0[t] implies a0[t].hops < b0[t].hops by {
            assert(a0[t] == a[t] && b0[t] == b[t]);
        }
        lemma_vector_hops_lowered(a0, b0);
        assert(a.last().hops <= b.last().hops);
        if a != b {
            if a0 == b0 {
                assert(a.last() != b.last()) by {
                    if a.last() == b.last() {
                        assert(a =~= b) by {
                            assert forall|t: int| 0 <= t < a.len() implies a[t] == b[t] by {
                                if t < a0.len() {
                                    assert(a[t] == a0[t] && b[t] == b0[t]);
                                }
                            }
                        }
                    }
                }
                assert(a.last().hops < b.last().hops);
            }
        }
    } else {
        assert(a =~= b);
    }
}

impl Graph {
    /// The hop counts of the first `k` routers' vectors, summed.
    pub closed spec fn hops_of_first(self, k: nat) -> nat
        decreases k,
    {
        if k == 0 {
            0
        } else {
            self.hops_of_first((k - 1) as nat) + vector_hops(self.vector(k - 1))
        }
    }

    /// The hop counts of all vectors, summed.
    pub closed spec fn total_hops(self) -> nat {
        self.hops_of_first(self.size())
    }

    /// Every router with changes to announce waits in the queue, and only those.
    pub open spec fn queue_matches_pending(self) -> bool {
        forall|v: usize| v < self.size() ==> (self.pending(v as int) <==> #[trigger] self.waiting().contains(v))
    }
}

/// Sums over routers whose vectors each got lower are lower, strictly where
/// one of them changed.
proof fn lemma_hops_of_first_lowered(before: Graph, after: Graph, k: nat)
    requires
        k <= before.size(),
        forall|u: int| 0 <= u < k ==> lowers(#[trigger] after.vector(u), before.vector(u)),
    ensures
        after.hops_of_first(k) <= before.hops_of_first(k),
        (exists|u: int| 0 <= u < k && #[trigger] after.vector(u) != before.vector(u)) ==> after.hops_of_first(k)
            < before.hops_of_first(k),
    decreases k,
{
    if k > 0 {
        let last = k - 1;
        lemma_hops_of_first_lowered(before, after, (k - 1) as nat);
        assert(lowers(after.vector(last), before.vector(last)));
        lemma_vector_hops_lowered(after.vector(last), before.vector(last));
        if exists|u: int| 0 <= u < k && #[trigger] after.vector(u) != before.vector(u) {
            let u = choose|u: int| 0 <= u < k && #[trigger] after.vector(u) != before.vector(u);
            if u < last {
                assert(exists|v: int| 0 <= v < k - 1 && #[trigger] after.vector(v) != before.vector(v));
            }
        }
    }
}

/// How many of the first `k` routers have a different vector after than before.
pub open spec fn changed_count(before: Graph, after: Graph, k: nat) -> nat
    decreases k,
{
    if k == 0 {
        0
    } else {
        changed_count(before, after, (k - 1) as nat) + if after.vector(k - 1) != before.vector(k - 1) {
            1nat
        } else {
            0nat
        }
    }
}

/// Each router whose vector was lowered and changed takes at least one off
/// the total.
proof fn lemma_hops_drop_by_changes(before: Graph, after: Graph, k: nat)
    requires
        k <= before.size(),
        forall|u: int| 0 <= u < k ==> lowers(#[trigger] after.vector(u), before.vector(u)),
    ensures
        after.hops_of_first(k) + changed_count(before, after, k) <= before.hops_of_first(k),
    decreases k,
{
    if k > 0 {
        lemma_hops_drop_by_changes(before, after, (k - 1) as nat);
        assert(lowers(after.vector(k - 1), before.vector(k - 1)));
        lemma_vector_hops_lowered(after.vector(k - 1), before.vector(k - 1));
    }
}

/// The routers below `k` whose vector changed, as a set, number `changed_count`.
proof fn lemma_changed_set(before: Graph, after: Graph, k: nat)
    requires
        k <= usize::MAX + 1,
    ensures
        ({
            let c = Set::new(|v: usize| (v as int) < k && after.vector(v as int) != before.vector(v as int));
            c.finite() && c.len() == changed_count(before, after, k)
        }),
    decreases k,
{
    let c = Set::new(|v: usize| (v as int) < k && after.vector(v as int) != before.vector(v as int));
    if k == 0 {
        assert(c =~= Set::<usize>::empty());
    } else {
        lemma_changed_set(before, after, (k - 1) as nat);
        let p = Set::new(|v: usize| (v as int) < k - 1 && after.vector(v as int) != before.vector(v as int));
        let last = (k - 1) as usize;
        assert(last as int == k - 1);
        if after.vector(k - 1) != before.vector(k - 1) {
            assert(c =~= p.insert(last));
            assert(!p.contains(last));
        } else {
            assert(c =~= p);
        }
    }
}

/// Termination of the protocol: while every router with changes waits in
/// the queue, a round keeps it so, never raises the total hop count, and
/// either lowers it or shortens the queue. The total and the queue length
/// being natural numbers, rounds cannot go on for ever.
pub proof fn lemma_round_progress(before: Graph, after: Graph, x: usize)
    requires
        before.wf(),
        after.wf(),
        before.queue_matches_pending(),
        after.size() == before.size(),
        after.neighbor_lists() == before.neighbor_lists(),
        before.waiting().contains(x),
        forall|u: int|
            0 <= u < before.size() ==> #[trigger] after.vector(u) == if before.edge(x as int, u) {
                relaxed_vector(before.vector(u), before.vector(x as int), x)
            } else {
                before.vector(u)
            },
        forall|u: int|
            0 <= u < before.size() ==> #[trigger] after.pending(u) == ((u != x && before.pending(u)) || (before.edge(
                x as int,
                u,
            ) && after.vector(u) != before.vector(u))),
        forall|v: usize|
            #[trigger] after.waiting().contains(v) <==> ((before.waiting().contains(v) && v != x) || (v
                < before.size() && before.edge(x as int, v as int) && after.pending(v as int))),
    ensures
        after.queue_matches_pending(),
        after.total_hops() <= before.total_hops(),
        after.total_hops() == before.total_hops() ==> after.waiting().len() < before.waiting().len(),
        before.size() <= usize::MAX ==> after.waiting().len() + after.total_hops() < before.waiting().len()
            + before.total_hops(),
{
    let n = before.size();
    assert forall|v: usize| v < n implies (after.pending(v as int) <==> #[trigger] after.waiting().contains(v)) by {
        let u = v as int;
        assert(before.pending(u) <==> before.waiting().contains(v));
        assert(after.pending(u) == ((u != x && before.pending(u)) || (before.edge(x as int, u) && after.vector(u)
            != before.vector(u))));
        assert(after.waiting().contains(v) <==> ((before.waiting().contains(v) && v != x) || (v < before.size()
            && before.edge(x as int, v as int) && after.pending(v as int))));
    }
    assert forall|u: int| 0 <= u < n implies lowers(#[trigger] after.vector(u), before.vector(u)) by {
        if before.edge(x as int, u) {
            lemma_relaxed_lowers(before.vector(u), before.vector(x as int), x);
        } else {
            assert(after.vector(u) =~= before.vector(u));
        }
    }
    lemma_hops_of_first_lowered(before, after, n);
    if n <= usize::MAX {
        lemma_hops_drop_by_changes(before, after, n);
        lemma_changed_set(before, after, n);
        let c = Set::new(|v: usize| (v as int) < n && after.vector(v as int) != before.vector(v as int));
        let old_set = before.waiting().to_set();
        let new_set = after.waiting().to_set();
        let rest = old_set.remove(x);
        assert forall|v: usize| #[trigger] new_set.contains(v) implies rest.union(c).contains(v) by {
            assert(after.waiting().contains(v));
            if v < n && before.edge(x as int, v as int) && after.pending(v as int) && !(before.waiting().contains(v)
                && v != x) {
                if v != x && before.pending(v as int) {
                    assert(before.waiting().contains(v));
                }
                assert(c.contains(v));
            }
        }
        assert(new_set.subset_of(rest.union(c)));
        assert(old_set.contains(x));
        vstd::set_lib::lemma_len_union(rest, c);
        vstd::set_lib::lemma_len_subset(new_set, rest.union(c));
        before.waiting().unique_seq_to_set();
        after.waiting().unique_seq_to_set();
    }
    if after.total_hops() == before.total_hops() {
        assert forall|u: int| 0 <= u < n implies #[trigger] after.vector(u) == before.vector(u) by {
            if after.vector(u) != before.vector(u) {
                assert(exists|v: int| 0 <= v < n && #[trigger] after.vector(v) != before.vector(v));
            }
        }
        let old_set = before.waiting().to_set();
        let new_set = after.waiting().to_set();
        assert forall|v: usize| #[trigger] new_set.contains(v) <==> old_set.remove(x).contains(v) by {
            assert(new_set.contains(v) <==> after.waiting().contains(v));
            assert(old_set.contains(v) <==> before.waiting().contains(v));
            if v < n && before.edge(x as int, v as int) && after.pending(v as int) {
                assert(after.vector(v as int) == before.vector(v as int));
                assert(v != x && before.pending(v as int));
                assert(before.waiting().contains(v));
            }
            if before.waiting().contains(v) && v != x {
                assert(v < n);
            }
        }
        assert(new_set =~= old_set.remove(x));
        before.waiting().unique_seq_to_set();
        after.waiting().unique_seq_to_set();
        assert(old_set.contains(x));
    }
}

impl Graph {
    /// Whether `u`'s vector is already relaxed against `v`'s: relaxing it
    /// again changes nothing.
    pub open spec fn relaxed_against(self, u: int, v: int) -> bool {
        relaxed_vector(self.vector(u), self.vector(v), v as usize) == self.vector(u)
    }

    /// What the rounds keep while they settle the routes: a neighbour's
    /// route needs at most one hop, and every router is relaxed against each
    /// neighbour that has nothing left to announce.
    pub open spec fn settling(self) -> bool {
        &&& forall|u: int, t: int| 0 <= u < self.size() && 0 <= t < self.size() && self.edge(u, t) ==> #[trigger] self.route(
            u,
            t,
        ).hops <= 1
        &&& forall|u: int, v: int|
            0 <= u < self.size() && 0 <= v < self.size() && self.edge(u, v) && !self.pending(v) ==> #[trigger] self.relaxed_against(
                u,
                v,
            )
    }
}

/// Relaxing twice against the same vector is relaxing once.
proof fn lemma_relax_idempotent(a: Seq<DistanceVectorEntry>, b: Seq<DistanceVectorEntry>, x: usize)
    ensures
        relaxed_vector(relaxed_vector(a, b, x), b, x) == relaxed_vector(a, b, x),
{
    assert(relaxed_vector(relaxed_vector(a, b, x), b, x) =~= relaxed_vector(a, b, x));
}

/// A vector relaxed against another stays so when its hops only go down.
proof fn lemma_relaxed_stays(a: Seq<DistanceVectorEntry>, b: Seq<DistanceVectorEntry>, c: Seq<DistanceVectorEntry>, v: usize)
    requires
        lowers(a, b),
        relaxed_vector(b, c, v) == b,
    ensures
        relaxed_vector(a, c, v) == a,
{
    assert forall|t: int| 0 <= t < a.len() && t < c.len() implies relaxed_entry(a[t], c[t], v) == a[t] by {
        assert(relaxed_vector(b, c, v)[t] == b[t]);
    }
    assert(relaxed_vector(a, c, v) =~= a);
}

/// A round keeps the network settling.
proof fn lemma_round_settling(before: Graph, after: Graph, x: usize)
    requires
        before.wf(),
        after.wf(),
        before.settling(),
        after.size() == before.size(),
        after.neighbor_lists() == before.neighbor_lists(),
        before.waiting().contains(x),
        x < before.size(),
        forall|u: int|
            0 <= u < before.size() ==> #[trigger] after.vector(u) == if before.edge(x as int, u) {
                relaxed_vector(before.vector(u), before.vector(x as int), x)
            } else {
                before.vector(u)
            },
        forall|u: int|
            0 <= u < before.size() ==> #[trigger] after.pending(u) == ((u != x && before.pending(u)) || (before.edge(
                x as int,
                u,
            ) && after.vector(u) != before.vector(u))),
    ensures
        after.settling(),
{
    let n = before.size();
    assert forall|u: int| 0 <= u < n implies lowers(#[trigger] after.vector(u), before.vector(u)) by {
        if before.edge(x as int, u) {
            lemma_relaxed_lowers(before.vector(u), before.vector(x as int), x);
        } else {
            assert(after.vector(u) =~= before.vector(u));
        }
    }
    assert forall|u: int, t: int| 0 <= u < n && 0 <= t < n && after.edge(u, t) implies #[trigger] after.route(
        u,
        t,
    ).hops <= 1 by {
        assert(lowers(after.vector(u), before.vector(u)));
        assert(before.route(u, t).hops <= 1);
        assert(after.route(u, t) == after.vector(u)[t] && before.route(u, t) == before.vector(u)[t]);
    }
    assert(after.vector(x as int) == before.vector(x as int)) by {
        if before.edge(x as int, x as int) {
            let a = before.vector(x as int);
            assert(relaxed_vector(a, a, x) =~= a);
        }
    }
    assert forall|u: int, v: int|
        0 <= u < n && 0 <= v < n && after.edge(u, v) && !after.pending(v) implies #[trigger] after.relaxed_against(u, v) by {
        assert(before.edge(v, u));
        if v == x {
            if before.edge(x as int, u) {
                lemma_relax_idempotent(before.vector(u), before.vector(x as int), x);
            } else {
                assert(false);
            }
        } else {
            assert(!before.pending(v));
            assert(after.vector(v) == before.vector(v));
            assert(before.relaxed_against(u, v));
            lemma_relaxed_stays(after.vector(u), before.vector(u), before.vector(v), v as usize);
        }
    }
}

/// On a settled network (every router relaxed against every neighbour),
/// no walk from `u` to another router `t` is shorter than `u`'s route.
proof fn lemma_no_shorter_walk(g: Graph, u: int, t: int, k: nat)
    requires
        g.wf(),
        g.settling(),
        forall|a: int, b: int| 0 <= a < g.size() && 0 <= b < g.size() && g.edge(a, b) ==> #[trigger] g.relaxed_against(a, b),
        0 <= u < g.size(),
        0 <= t < g.size(),
        u != t,
        walk(g.neighbor_lists(), u, t, k),
    ensures
        g.route(u, t).hops <= k,
    decreases k,
{
    let nb = g.neighbor_lists();
    g.lemma_routes_sound(u, t);
    if k > 0 {
        let m = choose|m: int| 0 <= m < nb.len() && #[trigger] adjacent(nb, u, m) && walk(nb, m, t, (k - 1) as nat);
        assert(g.edge(u, m));
        if m == t {
            assert(g.route(u, t).hops <= 1);
        } else {
            lemma_no_shorter_walk(g, m, t, (k - 1) as nat);
            g.lemma_routes_sound(m, t);
            assert(g.relaxed_against(u, m));
            assert(relaxed_vector(g.vector(u), g.vector(m), m as usize)[t] == g.vector(u)[t]);
            assert(g.route(u, t) == g.vector(u)[t] && g.route(m, t) == g.vector(m)[t]);
        }
    }
}

/// A vector of `m` entries, each of 1 to 16 hops, sums to between `m` and `16 * m`.
proof fn lemma_vector_hops_bounds(v: Seq<DistanceVectorEntry>)
    requires
        forall|t: int| 0 <= t < v.len() ==> 1 <= #[trigger] v[t].hops <= INFINITE_HOPS,
    ensures
        v.len() <= vector_hops(v) <= 16 * v.len(),
    decreases v.len(),
{
    if v.len() > 0 {
        let w = v.drop_last();
        assert forall|t: int| 0 <= t < w.len() implies 1 <= #[trigger] w[t].hops <= INFINITE_HOPS by {
            assert(w[t] == v[t]);
        }
        lemma_vector_hops_bounds(w);
        assert(1 <= v.last().hops <= 16);
    }
}

/// The first `k` vectors of a running network sum to between `k * n` and
/// `16 * k * n` hops.
#[verifier::spinoff_prover]
proof fn lemma_hops_of_first_bounds(g: Graph, k: nat)
    requires
        g.wf(),
        k <= g.size(),
    ensures
        k * g.size() <= g.hops_of_first(k) <= 16 * k * g.size(),
    decreases k,
{
    let n = g.size();
    if k > 0 {
        lemma_hops_of_first_bounds(g, (k - 1) as nat);
        let u = k - 1;
        assert forall|t: int| 0 <= t < g.vector(u).len() implies 1 <= #[trigger] g.vector(u)[t].hops <= INFINITE_HOPS by {
            g.lemma_routes_sound(u, t);
            assert(g.route(u, t) == g.vector(u)[t]);
        }
        lemma_vector_hops_bounds(g.vector(u));
        assert(g.vector(u).len() == n);
        assert(g.hops_of_first(k) == g.hops_of_first((k - 1) as nat) + vector_hops(g.vector(u)));
        let km = (k - 1) as nat;
        assert(km * n <= g.hops_of_first(km) <= 16 * km * n);
        assert(n <= vector_hops(g.vector(u)) <= 16 * n);
        assert(k * n == km * n + n && 16 * k * n == 16 * km * n + 16 * n) by (nonlinear_arith)
            requires
                km == k - 1,
        ;
        assert(k * n <= g.hops_of_first(k));
        assert(g.hops_of_first(k) <= 16 * k * n);
    }
}

/// All vectors of a running network of `n` routers sum to between `n * n`
/// and `16 * n * n` hops.
proof fn lemma_total_hops_bounds(g: Graph)
    requires
        g.wf(),
    ensures
        g.size() * g.size() <= g.total_hops() <= 16 * g.size() * g.size(),
{
    lemma_hops_of_first_bounds(g, g.size());
}

/// The routers below `k`, as a set, number `k`.
proof fn lemma_routers_below(k: nat)
    requires
        k <= usize::MAX + 1,
    ensures
        Set::new(|v: usize| (v as int) < k).finite(),
        Set::new(|v: usize| (v as int) < k).len() == k,
    decreases k,
{
    let c = Set::new(|v: usize| (v as int) < k);
    if k == 0 {
        assert(c =~= Set::<usize>::empty());
    } else {
        lemma_routers_below((k - 1) as nat);
        let p = Set::new(|v: usize| (v as int) < k - 1);
        let last = (k - 1) as usize;
        assert(c =~= p.insert(last));
        assert(!p.contains(last));
    }
}

/// No more routers wait than there are.
proof fn lemma_waiting_at_most_size(g: Graph)
    requires
        g.wf(),
        g.size() <= usize::MAX,
    ensures
        g.waiting().len() <= g.size(),
{
    let all = Set::new(|v: usize| (v as int) < g.size());
    lemma_routers_below(g.size());
    let w = g.waiting().to_set();
    assert forall|v: usize| #[trigger] w.contains(v) implies all.contains(v) by {
        let k = choose|k: int| 0 <= k < g.waiting().len() && g.waiting()[k] == v;
    }
    vstd::set_lib::lemma_len_subset(w, all);
    g.waiting().unique_seq_to_set();
}


/// One round of the protocol, from `before` to `after`, in which router `x`
/// announced: `x` was waiting, each neighbour of `x` relaxed its vector
/// against `x`'s, a router has changes to announce when it had them before
/// (unless it is `x`) or its vector just changed, and the queue lost `x` and
/// gained the neighbours of `x` left with changes.
pub open spec fn round(before: Graph, after: Graph, x: usize) -> bool {
    &&& before.waiting().contains(x)
    &&& after.size() == before.size()
    &&& after.neighbor_lists() == before.neighbor_lists()
    &&& forall|u: int|
        0 <= u < before.size() ==> #[trigger] after.vector(u) == if before.edge(x as int, u) {
            relaxed_vector(before.vector(u), before.vector(x as int), x)
        } else {
            before.vector(u)
        }
    &&& forall|u: int|
        0 <= u < before.size() ==> #[trigger] after.pending(u) == ((u != x && before.pending(u)) || (before.edge(
            x as int,
            u,
        ) && after.vector(u) != before.vector(u)))
    &&& forall|v: usize|
        #[trigger] after.waiting().contains(v) <==> ((before.waiting().contains(v) && v != x) || (v < before.size()
            && before.edge(x as int, v as int) && after.pending(v as int)))
}

} // verus!
