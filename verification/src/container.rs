use crate::default_provider_hook::lemma_replay_ok_prefix;
use crate::default_provider_hook::replay_bindings;
use crate::default_provider_hook::replay_factories;
use crate::default_provider_hook::replay_ok;
use crate::default_provider_hook::DefaultProviderHook;
use crate::deps_map::DepsMap;
use crate::error::Error;
use crate::key_map::KeyMap;
use crate::resolution::Resolution;
use crate::type_info::TypeInfo;
use vstd::prelude::*;

verus! {

/// A constructed provider instance. Its handle is its index in the
/// container's arena, so two equal handles denote the identical instance.
#[derive(Debug)]
pub struct Instance {
    /// The provider type this instance was constructed from
    pub provider: TypeInfo,
    /// Handles of the dependency instances it was assembled from, one per
    /// dependency service of its factory, in declaration order
    pub deps: Vec<usize>,
}

/// Whether `service` occurs among the dependency keys `deps`.
pub open spec fn dep_link(deps: Seq<TypeInfo>, service: TypeInfo) -> bool {
    exists|k: int| 0 <= k < deps.len() && deps[k].id == service.id
}

/// Every binding of the tables in `post` that already stood in `pre` is
/// unchanged, nothing is unregistered, and instances are only appended:
/// what resolution may do to a container, and no more.
pub open spec fn evolves_to(pre: Container, post: Container) -> bool {
    &&& post.bindings() == pre.bindings()
    &&& post.factories() == pre.factories()
    &&& post.stack() == pre.stack()
    &&& map_le(pre.service_cache(), post.service_cache())
    &&& map_le(pre.provider_cache(), post.provider_cache())
    &&& seq_le(pre.instances(), post.instances())
}

/// What a `DependencyCycle` report shows: at least two steps, every step a
/// registered binding, consecutive steps linked by a declared dependency,
/// and the last step a repetition of an earlier one.
pub open spec fn cycle_report_ok(
    snap: Seq<Resolution>,
    b: Map<u64, TypeInfo>,
    f: Map<u64, Seq<TypeInfo>>,
) -> bool {
    &&& snap.len() >= 2
    &&& forall|i: int|
        0 <= i < snap.len() ==> b.contains_key((#[trigger] snap[i]).service.id) && b[snap[i].service.id].id
            == snap[i].provider.id
    &&& forall|i: int|
        0 < i < snap.len() ==> f.contains_key(snap[i - 1].provider.id) && dep_link(
            f[snap[i - 1].provider.id],
            (#[trigger] snap[i]).service,
        )
    &&& exists|i: int| 0 <= i < snap.len() - 1 && (#[trigger] snap[i]).is_same(snap.last())
}

/// The instance constructed for `provider` from the dependency services
/// `deps`: one handle per dependency, each the handle cached for that
/// service in the service cache `sc`.
pub open spec fn instance_matches(
    inst: Instance,
    provider: TypeInfo,
    deps: Seq<TypeInfo>,
    sc: Map<u64, usize>,
) -> bool {
    &&& inst.provider.id == provider.id
    &&& inst.deps@.len() == deps.len()
    &&& forall|j: int|
        0 <= j < deps.len() ==> sc.contains_key((#[trigger] deps[j]).id) && inst.deps@[j] == sc[deps[j].id]
}

/// `b` extends to `a`: every binding of `a` is present unchanged in `b`.
pub open spec fn map_le<V>(a: Map<u64, V>, b: Map<u64, V>) -> bool {
    forall|k: u64| #[trigger] a.contains_key(k) ==> b.contains_key(k) && a[k] == b[k]
}

/// `a` is a prefix of `b`.
pub open spec fn seq_le<T>(a: Seq<T>, b: Seq<T>) -> bool {
    a.len() <= b.len() && forall|i: int| 0 <= i < a.len() ==> a[i] == b[i]
}

/// The factory table after installing `deps` as the recipe for `provider`,
/// unless a recipe for it is already present.
pub open spec fn overwrite_factories(
    f: Map<u64, Seq<TypeInfo>>,
    provider: TypeInfo,
    deps: Seq<TypeInfo>,
) -> Map<u64, Seq<TypeInfo>> {
    if f.contains_key(provider.id) {
        f
    } else {
        f.insert(provider.id, deps)
    }
}

/// The binding table after binding `service` to `provider`, including the
/// self-registration fallback: a provider first seen under a service other
/// than itself also becomes resolvable as its own service.
pub open spec fn overwrite_bindings(
    b: Map<u64, TypeInfo>,
    f: Map<u64, Seq<TypeInfo>>,
    provider: TypeInfo,
    service: TypeInfo,
) -> Map<u64, TypeInfo> {
    if !f.contains_key(provider.id) && service.id != provider.id {
        b.insert(provider.id, provider).insert(service.id, provider)
    } else {
        b.insert(service.id, provider)
    }
}

/// Every bound provider has a factory in `f`.
pub open spec fn bindings_backed(b: Map<u64, TypeInfo>, f: Map<u64, Seq<TypeInfo>>) -> bool {
    forall|s: u64| #[trigger] b.contains_key(s) ==> f.contains_key(b[s].id)
}

/// Every provider-cache entry is the handle of an instance of that provider.
pub open spec fn provider_cache_ok(pc: Map<u64, usize>, insts: Seq<Instance>) -> bool {
    forall|p: u64| #[trigger]
        pc.contains_key(p) ==> pc[p] < insts.len() && insts[pc[p] as int].provider.id == p
}

/// Every service-cache entry is the handle of an instance.
pub open spec fn service_cache_ok(sc: Map<u64, usize>, insts: Seq<Instance>) -> bool {
    forall|s: u64| #[trigger] sc.contains_key(s) ==> sc[s] < insts.len()
}

/// An instance only points at instances constructed before it.
pub open spec fn deps_closed(insts: Seq<Instance>) -> bool {
    forall|i: int, j: int|
        0 <= i < insts.len() && 0 <= j < insts[i].deps@.len() ==> #[trigger] insts[i].deps@[j] < i
}

/// Every stack step is a current binding whose provider and service are not
/// yet cached.
pub open spec fn stack_entries_ok(
    st: Seq<Resolution>,
    b: Map<u64, TypeInfo>,
    pc: Map<u64, usize>,
    sc: Map<u64, usize>,
) -> bool {
    forall|i: int|
        0 <= i < st.len() ==> {
            let e = #[trigger] st[i];
            &&& b.contains_key(e.service.id)
            &&& b[e.service.id].id == e.provider.id
            &&& !pc.contains_key(e.provider.id)
            &&& !sc.contains_key(e.service.id)
        }
}

/// No service occurs twice on the stack.
pub open spec fn stack_distinct(st: Seq<Resolution>) -> bool {
    forall|i: int, j: int| 0 <= i < j < st.len() ==> st[i].service.id != st[j].service.id
}

/// Each stack step resolves a declared dependency of the step below it.
pub open spec fn stack_chain(st: Seq<Resolution>, f: Map<u64, Seq<TypeInfo>>) -> bool {
    forall|i: int|
        0 < i < st.len() ==> f.contains_key(st[i - 1].provider.id) && dep_link(
            f[st[i - 1].provider.id],
            (#[trigger] st[i]).service,
        )
}

/// Whether the service `s` resolves outright: it is already cached, or it is
/// bound to a provider that is constructed or constructible within `fuel`
/// rounds of dependency resolution.
pub open spec fn service_ok(
    b: Map<u64, TypeInfo>,
    f: Map<u64, Seq<TypeInfo>>,
    pc: Map<u64, usize>,
    sc: Map<u64, usize>,
    s: u64,
    fuel: nat,
) -> bool
    decreases fuel, 1int,
{
    sc.contains_key(s) || (b.contains_key(s) && provider_ok(b, f, pc, sc, b[s].id, fuel))
}

/// Whether the provider `p` is constructed, or constructible within `fuel`
/// rounds: it has a factory and each of its dependency services resolves
/// with one round fewer.
pub open spec fn provider_ok(
    b: Map<u64, TypeInfo>,
    f: Map<u64, Seq<TypeInfo>>,
    pc: Map<u64, usize>,
    sc: Map<u64, usize>,
    p: u64,
    fuel: nat,
) -> bool
    decreases fuel, 0int,
{
    pc.contains_key(p) || (fuel > 0 && f.contains_key(p) && forall|k: int|
        0 <= k < f[p].len() ==> service_ok(b, f, pc, sc, (#[trigger] f[p][k]).id, (fuel - 1) as nat))
}

/// Whether `service` can be resolved from the container's current state:
/// cached, or constructible through its registered bindings and factories.
pub open spec fn resolvable(c: Container, service: TypeInfo) -> bool {
    service_justified(
        c.bindings(),
        c.factories(),
        c.provider_cache(),
        c.service_cache(),
        service.id,
    )
}

/// Resolvability survives the growth of the caches.
proof fn lemma_service_ok_monotone(
    b: Map<u64, TypeInfo>,
    f: Map<u64, Seq<TypeInfo>>,
    pc1: Map<u64, usize>,
    sc1: Map<u64, usize>,
    pc2: Map<u64, usize>,
    sc2: Map<u64, usize>,
    s: u64,
    fuel: nat,
)
    requires
        map_le(pc1, pc2),
        map_le(sc1, sc2),
        service_ok(b, f, pc1, sc1, s, fuel),
    ensures
        service_ok(b, f, pc2, sc2, s, fuel),
    decreases fuel, 1int,
{
    if !sc1.contains_key(s) {
        lemma_provider_ok_monotone(b, f, pc1, sc1, pc2, sc2, b[s].id, fuel);
    }
}

/// Constructibility survives the growth of the caches.
proof fn lemma_provider_ok_monotone(
    b: Map<u64, TypeInfo>,
    f: Map<u64, Seq<TypeInfo>>,
    pc1: Map<u64, usize>,
    sc1: Map<u64, usize>,
    pc2: Map<u64, usize>,
    sc2: Map<u64, usize>,
    p: u64,
    fuel: nat,
)
    requires
        map_le(pc1, pc2),
        map_le(sc1, sc2),
        provider_ok(b, f, pc1, sc1, p, fuel),
    ensures
        provider_ok(b, f, pc2, sc2, p, fuel),
    decreases fuel, 0int,
{
    if !pc1.contains_key(p) {
        assert forall|k: int| 0 <= k < f[p].len() implies service_ok(
            b,
            f,
            pc2,
            sc2,
            (#[trigger] f[p][k]).id,
            (fuel - 1) as nat,
        ) by {
            lemma_service_ok_monotone(b, f, pc1, sc1, pc2, sc2, f[p][k].id, (fuel - 1) as nat);
        }
    }
}

/// Whether `s` resolves with some amount of fuel.
pub open spec fn service_justified(
    b: Map<u64, TypeInfo>,
    f: Map<u64, Seq<TypeInfo>>,
    pc: Map<u64, usize>,
    sc: Map<u64, usize>,
    s: u64,
) -> bool {
    exists|fl: nat| service_ok(b, f, pc, sc, s, fl)
}

/// Whether `p` is constructible with some amount of fuel.
pub open spec fn provider_justified(
    b: Map<u64, TypeInfo>,
    f: Map<u64, Seq<TypeInfo>>,
    pc: Map<u64, usize>,
    sc: Map<u64, usize>,
    p: u64,
) -> bool {
    exists|fl: nat| provider_ok(b, f, pc, sc, p, fl)
}

/// Resolvability survives a raise of the fuel bound.
proof fn lemma_service_ok_fuel(
    b: Map<u64, TypeInfo>,
    f: Map<u64, Seq<TypeInfo>>,
    pc: Map<u64, usize>,
    sc: Map<u64, usize>,
    s: u64,
    fuel1: nat,
    fuel2: nat,
)
    requires
        fuel1 <= fuel2,
        service_ok(b, f, pc, sc, s, fuel1),
    ensures
        service_ok(b, f, pc, sc, s, fuel2),
    decreases fuel2, 1int,
{
    if !sc.contains_key(s) {
        lemma_provider_ok_fuel(b, f, pc, sc, b[s].id, fuel1, fuel2);
    }
}

/// Constructibility survives a raise of the fuel bound.
proof fn lemma_provider_ok_fuel(
    b: Map<u64, TypeInfo>,
    f: Map<u64, Seq<TypeInfo>>,
    pc: Map<u64, usize>,
    sc: Map<u64, usize>,
    p: u64,
    fuel1: nat,
    fuel2: nat,
)
    requires
        fuel1 <= fuel2,
        provider_ok(b, f, pc, sc, p, fuel1),
    ensures
        provider_ok(b, f, pc, sc, p, fuel2),
    decreases fuel2, 0int,
{
    if !pc.contains_key(p) {
        assert forall|k: int| 0 <= k < f[p].len() implies service_ok(
            b,
            f,
            pc,
            sc,
            (#[trigger] f[p][k]).id,
            (fuel2 - 1) as nat,
        ) by {
            lemma_service_ok_fuel(b, f, pc, sc, f[p][k].id, (fuel1 - 1) as nat, (fuel2 - 1) as nat);
        }
    }
}

/// A list of services each resolvable with some fuel is resolvable with one
/// common fuel.
proof fn lemma_deps_uniform_fuel(
    b: Map<u64, TypeInfo>,
    f: Map<u64, Seq<TypeInfo>>,
    pc: Map<u64, usize>,
    sc: Map<u64, usize>,
    deps: Seq<TypeInfo>,
) -> (fuel: nat)
    requires
        forall|k: int|
            0 <= k < deps.len() ==> service_justified(b, f, pc, sc, (#[trigger] deps[k]).id),
    ensures
        forall|k: int| 0 <= k < deps.len() ==> service_ok(b, f, pc, sc, (#[trigger] deps[k]).id, fuel),
    decreases deps.len(),
{
    if deps.len() == 0 {
        0
    } else {
        let rest = deps.drop_last();
        assert forall|k: int| 0 <= k < rest.len() implies service_justified(
            b,
            f,
            pc,
            sc,
            (#[trigger] rest[k]).id,
        ) by {
            assert(rest[k] == deps[k]);
        }
        let rest_fuel = lemma_deps_uniform_fuel(b, f, pc, sc, rest);
        let last_fuel = choose|fl: nat| service_ok(b, f, pc, sc, deps.last().id, fl);
        let fuel = if rest_fuel >= last_fuel {
            rest_fuel
        } else {
            last_fuel
        };
        assert forall|k: int| 0 <= k < deps.len() implies service_ok(
            b,
            f,
            pc,
            sc,
            (#[trigger] deps[k]).id,
            fuel,
        ) by {
            if k < deps.len() - 1 {
                assert(rest[k] == deps[k]);
                lemma_service_ok_fuel(b, f, pc, sc, deps[k].id, rest_fuel, fuel);
            } else {
                assert(deps[k] == deps.last());
                lemma_service_ok_fuel(b, f, pc, sc, deps[k].id, last_fuel, fuel);
            }
        }
        fuel
    }
}

/// Every service cached in `post` was resolvable, and every provider cached
/// in `post` constructible, already from the state `pre`.
pub open spec fn caches_justified(pre: Container, post: Container) -> bool {
    &&& forall|t: u64| #[trigger]
        post.service_cache().contains_key(t) ==> service_justified(
            pre.bindings(),
            pre.factories(),
            pre.provider_cache(),
            pre.service_cache(),
            t,
        )
    &&& forall|p: u64| #[trigger]
        post.provider_cache().contains_key(p) ==> provider_justified(
            pre.bindings(),
            pre.factories(),
            pre.provider_cache(),
            pre.service_cache(),
            p,
        )
}

/// A service resolvable over caches whose every entry is justified from a
/// smaller state is resolvable from that smaller state too.
proof fn lemma_service_ok_compose(
    b: Map<u64, TypeInfo>,
    f: Map<u64, Seq<TypeInfo>>,
    pc1: Map<u64, usize>,
    sc1: Map<u64, usize>,
    pc2: Map<u64, usize>,
    sc2: Map<u64, usize>,
    s: u64,
    fuel: nat,
) -> (out: nat)
    requires
        forall|t: u64| #[trigger] sc2.contains_key(t) ==> service_justified(b, f, pc1, sc1, t),
        forall|p: u64| #[trigger] pc2.contains_key(p) ==> provider_justified(b, f, pc1, sc1, p),
        service_ok(b, f, pc2, sc2, s, fuel),
    ensures
        service_ok(b, f, pc1, sc1, s, out),
    decreases fuel, 1int,
{
    if sc2.contains_key(s) {
        assert(service_justified(b, f, pc1, sc1, s));
        choose|fl: nat| service_ok(b, f, pc1, sc1, s, fl)
    } else {
        let pf = lemma_provider_ok_compose(b, f, pc1, sc1, pc2, sc2, b[s].id, fuel);
        pf
    }
}

/// A provider constructible over justified caches is constructible from the
/// smaller state too.
proof fn lemma_provider_ok_compose(
    b: Map<u64, TypeInfo>,
    f: Map<u64, Seq<TypeInfo>>,
    pc1: Map<u64, usize>,
    sc1: Map<u64, usize>,
    pc2: Map<u64, usize>,
    sc2: Map<u64, usize>,
    p: u64,
    fuel: nat,
) -> (out: nat)
    requires
        forall|t: u64| #[trigger] sc2.contains_key(t) ==> service_justified(b, f, pc1, sc1, t),
        forall|q: u64| #[trigger] pc2.contains_key(q) ==> provider_justified(b, f, pc1, sc1, q),
        provider_ok(b, f, pc2, sc2, p, fuel),
    ensures
        provider_ok(b, f, pc1, sc1, p, out),
    decreases fuel, 0int,
{
    if pc2.contains_key(p) {
        assert(provider_justified(b, f, pc1, sc1, p));
        choose|fl: nat| provider_ok(b, f, pc1, sc1, p, fl)
    } else {
        assert forall|k: int| 0 <= k < f[p].len() implies service_justified(
            b,
            f,
            pc1,
            sc1,
            (#[trigger] f[p][k]).id,
        ) by {
            assert(service_ok(b, f, pc2, sc2, f[p][k].id, (fuel - 1) as nat));
            let o = lemma_service_ok_compose(
                b,
                f,
                pc1,
                sc1,
                pc2,
                sc2,
                f[p][k].id,
                (fuel - 1) as nat,
            );
        }
        let uf = lemma_deps_uniform_fuel(b, f, pc1, sc1, f[p]);
        uf + 1
    }
}

/// Each provider is constructed at most once: every instance appended
/// between `pre` and `post` belongs to a provider that had no cached
/// instance before, and the provider cache points exactly at it afterward —
/// so no two appended instances share a provider, and nothing is rebuilt.
pub open spec fn new_instances_cached(pre: Container, post: Container) -> bool {
    forall|i: int|
        pre.instances().len() <= i < post.instances().len() ==> {
            let q = (#[trigger] post.instances()[i]).provider.id;
            &&& !pre.provider_cache().contains_key(q)
            &&& post.provider_cache().contains_key(q)
            &&& post.provider_cache()[q] == i
        }
}

/// One construction phase after another still constructs nothing twice.
proof fn lemma_new_instances_trans(a: Container, m: Container, c: Container)
    requires
        new_instances_cached(a, m),
        new_instances_cached(m, c),
        map_le(a.provider_cache(), m.provider_cache()),
        map_le(m.provider_cache(), c.provider_cache()),
        seq_le(a.instances(), m.instances()),
        seq_le(m.instances(), c.instances()),
    ensures
        new_instances_cached(a, c),
{
    assert forall|i: int|
        a.instances().len() <= i < c.instances().len() implies {
        let q = (#[trigger] c.instances()[i]).provider.id;
        &&& !a.provider_cache().contains_key(q)
        &&& c.provider_cache().contains_key(q)
        &&& c.provider_cache()[q] == i
    } by {
        if i < m.instances().len() {
            assert(m.instances()[i] == c.instances()[i]);
            let q = c.instances()[i].provider.id;
            assert(m.provider_cache().contains_key(q));
        } else {
            let q = c.instances()[i].provider.id;
            if a.provider_cache().contains_key(q) {
                assert(m.provider_cache().contains_key(q));
            }
        }
    }
}

/// Law: resolution never unresolves anything. A service resolvable before a
/// container operation that only grows the caches — any `resolve` call,
/// successful or failed — is still resolvable after it.
pub proof fn lemma_resolvable_preserved(pre: Container, post: Container, service: TypeInfo)
    requires
        evolves_to(pre, post),
        resolvable(pre, service),
    ensures
        resolvable(post, service),
{
    let fl = choose|fl: nat|
        service_ok(
            pre.bindings(),
            pre.factories(),
            pre.provider_cache(),
            pre.service_cache(),
            service.id,
            fl,
        );
    lemma_service_ok_monotone(
        pre.bindings(),
        pre.factories(),
        pre.provider_cache(),
        pre.service_cache(),
        post.provider_cache(),
        post.service_cache(),
        service.id,
        fl,
    );
}

/// Law: retrying a failed resolution without changing the bindings
/// reproduces the failure. A resolution attempt leaves the caches justified
/// from the state it started in, so a service that was not resolvable
/// before the attempt is not resolvable after it either, whatever the
/// attempt cached along the way.
pub proof fn lemma_retry_reproduces_failure(pre: Container, post: Container, service: TypeInfo)
    requires
        caches_justified(pre, post),
        post.bindings() == pre.bindings(),
        post.factories() == pre.factories(),
        !resolvable(pre, service),
    ensures
        !resolvable(post, service),
{
    if resolvable(post, service) {
        let fl = choose|fl: nat|
            service_ok(
                post.bindings(),
                post.factories(),
                post.provider_cache(),
                post.service_cache(),
                service.id,
                fl,
            );
        let o = lemma_service_ok_compose(
            pre.bindings(),
            pre.factories(),
            pre.provider_cache(),
            pre.service_cache(),
            post.provider_cache(),
            post.service_cache(),
            service.id,
            fl,
        );
    }
}

/// A container's own caches are justified from its own state.
proof fn lemma_caches_justified_refl(pre: Container, post: Container)
    requires
        post.service_cache() == pre.service_cache(),
        post.provider_cache() == pre.provider_cache(),
    ensures
        caches_justified(pre, post),
{
    let b = pre.bindings();
    let f = pre.factories();
    let pc = pre.provider_cache();
    let sc = pre.service_cache();
    assert forall|t: u64| #[trigger] post.service_cache().contains_key(t) implies service_justified(
        b,
        f,
        pc,
        sc,
        t,
    ) by {
        assert(service_ok(b, f, pc, sc, t, 0));
    }
    assert forall|p: u64| #[trigger] post.provider_cache().contains_key(
        p,
    ) implies provider_justified(b, f, pc, sc, p) by {
        assert(provider_ok(b, f, pc, sc, p, 0));
    }
}

/// Justification composes across an intermediate state with the same
/// bindings and factories.
proof fn lemma_caches_justified_trans(a: Container, m: Container, c: Container)
    requires
        caches_justified(a, m),
        caches_justified(m, c),
        m.bindings() == a.bindings(),
        m.factories() == a.factories(),
    ensures
        caches_justified(a, c),
{
    let b = a.bindings();
    let f = a.factories();
    assert forall|t: u64| #[trigger] c.service_cache().contains_key(t) implies service_justified(
        b,
        f,
        a.provider_cache(),
        a.service_cache(),
        t,
    ) by {
        assert(service_justified(b, f, m.provider_cache(), m.service_cache(), t));
        let fl = choose|fl: nat| service_ok(b, f, m.provider_cache(), m.service_cache(), t, fl);
        let o = lemma_service_ok_compose(
            b,
            f,
            a.provider_cache(),
            a.service_cache(),
            m.provider_cache(),
            m.service_cache(),
            t,
            fl,
        );
    }
    assert forall|p: u64| #[trigger] c.provider_cache().contains_key(p) implies provider_justified(
        b,
        f,
        a.provider_cache(),
        a.service_cache(),
        p,
    ) by {
        assert(provider_justified(b, f, m.provider_cache(), m.service_cache(), p));
        let fl = choose|fl: nat| provider_ok(b, f, m.provider_cache(), m.service_cache(), p, fl);
        let o = lemma_provider_ok_compose(
            b,
            f,
            a.provider_cache(),
            a.service_cache(),
            m.provider_cache(),
            m.service_cache(),
            p,
            fl,
        );
    }
}

/// Following the chain of in-progress constructions downward, a resolvable
/// step makes every later step resolvable with correspondingly less fuel.
proof fn lemma_stack_descend(
    b: Map<u64, TypeInfo>,
    f: Map<u64, Seq<TypeInfo>>,
    pc: Map<u64, usize>,
    sc: Map<u64, usize>,
    st: Seq<Resolution>,
    j: int,
    fuel: nat,
)
    requires
        stack_entries_ok(st, b, pc, sc),
        stack_chain(st, f),
        0 <= j < st.len(),
        service_ok(b, f, pc, sc, st[j].service.id, fuel),
    ensures
        fuel >= st.len() - 1 - j,
        service_ok(b, f, pc, sc, st.last().service.id, (fuel - (st.len() - 1 - j)) as nat),
    decreases st.len() - j,
{
    if j < st.len() - 1 {
        assert(!sc.contains_key(st[j].service.id));
        assert(!pc.contains_key(st[j].provider.id));
        assert(provider_ok(b, f, pc, sc, st[j].provider.id, fuel));
        assert(dep_link(f[st[j].provider.id], st[j + 1].service));
        let k = choose|k: int|
            0 <= k < f[st[j].provider.id].len() && f[st[j].provider.id][k].id == st[j
                + 1].service.id;
        assert(service_ok(b, f, pc, sc, f[st[j].provider.id][k].id, (fuel - 1) as nat));
        lemma_stack_descend(b, f, pc, sc, st, j + 1, (fuel - 1) as nat);
    }
}

/// A service whose resolution is already in progress cannot be resolvable:
/// the chain of constructions from its stack step down to the step now
/// asking for it again closes a genuine cycle of uncached bindings.
proof fn lemma_cycle_unresolvable(
    b: Map<u64, TypeInfo>,
    f: Map<u64, Seq<TypeInfo>>,
    pc: Map<u64, usize>,
    sc: Map<u64, usize>,
    st: Seq<Resolution>,
    i: int,
    service: TypeInfo,
    fuel: nat,
)
    requires
        stack_entries_ok(st, b, pc, sc),
        stack_chain(st, f),
        0 <= i < st.len(),
        st[i].service.id == service.id,
        f.contains_key(st.last().provider.id),
        dep_link(f[st.last().provider.id], service),
    ensures
        !service_ok(b, f, pc, sc, service.id, fuel),
    decreases fuel,
{
    if service_ok(b, f, pc, sc, service.id, fuel) {
        lemma_stack_descend(b, f, pc, sc, st, i, fuel);
        let drop = st.len() - 1 - i;
        let fuel1 = (fuel - drop) as nat;
        let last = st.last();
        assert(!sc.contains_key(last.service.id));
        assert(!pc.contains_key(last.provider.id));
        assert(provider_ok(b, f, pc, sc, last.provider.id, fuel1));
        let k = choose|k: int|
            0 <= k < f[last.provider.id].len() && f[last.provider.id][k].id == service.id;
        assert(service_ok(b, f, pc, sc, f[last.provider.id][k].id, (fuel1 - 1) as nat));
        lemma_cycle_unresolvable(b, f, pc, sc, st, i, service, (fuel1 - 1) as nat);
    }
}

/// A sequence of distinct elements of a finite set is no longer than the set.
proof fn lemma_distinct_ids_le(ids: Seq<u64>, dom: Set<u64>)
    requires
        dom.finite(),
        forall|i: int| 0 <= i < ids.len() ==> dom.contains(#[trigger] ids[i]),
        forall|i: int, j: int| 0 <= i < j < ids.len() ==> ids[i] != ids[j],
    ensures
        ids.len() <= dom.len(),
    decreases ids.len(),
{
    if ids.len() > 0 {
        let rest = ids.drop_last();
        let shrunk = dom.remove(ids.last());
        vstd::set::axiom_set_remove_len(dom, ids.last());
        assert forall|i: int| 0 <= i < rest.len() implies shrunk.contains(#[trigger] rest[i]) by {
            assert(ids[i] == rest[i]);
            assert(ids[i] != ids.last());
        }
        lemma_distinct_ids_le(rest, shrunk);
    }
}

/// Whether the stack already holds a step for the same service and provider.
fn stack_contains(stack: &Vec<Resolution>, res: &Resolution) -> (r: bool)
    ensures
        r == exists|i: int| 0 <= i < stack@.len() && (#[trigger] stack@[i]).is_same(*res),
{
    let mut i: usize = 0;
    while i < stack.len()
        invariant
            i <= stack@.len(),
            forall|j: int| 0 <= j < i ==> !(#[trigger] stack@[j]).is_same(*res),
        decreases stack@.len() - i,
    {
        if stack[i].same(res) {
            return true;
        }
        i = i + 1;
    }
    false
}

/// Snapshot the stack for a diagnostic report.
fn copy_stack(stack: &Vec<Resolution>) -> (out: Vec<Resolution>)
    ensures
        out@ == stack@,
{
    let mut out: Vec<Resolution> = Vec::new();
    let mut i: usize = 0;
    while i < stack.len()
        invariant
            i <= stack@.len(),
            out@ == stack@.take(i as int),
        decreases stack@.len() - i,
    {
        out.push(stack[i]);
        proof {
            assert(out@ =~= stack@.take(i as int + 1));
        }
        i = i + 1;
    }
    proof {
        assert(stack@.take(stack@.len() as int) =~= stack@);
    }
    out
}

/// Dependency injection container.
///
/// It records which provider type backs which service, how to construct each
/// provider (the services it depends on), and caches every constructed
/// instance so that each provider is built at most once.
pub struct Container {
    provider_factories: DepsMap,
    providers: KeyMap<usize>,
    services: KeyMap<usize>,
    provide_map: KeyMap<TypeInfo>,
    init_stack: Vec<Resolution>,
    built: Vec<Instance>,
}

impl Container {
    /// The binding table: service id to the provider key registered for it.
    pub closed spec fn bindings(&self) -> Map<u64, TypeInfo> {
        self.provide_map@
    }

    /// The factory table: provider id to its dependency services, in order.
    pub closed spec fn factories(&self) -> Map<u64, Seq<TypeInfo>> {
        self.provider_factories@
    }

    /// The provider cache: provider id to the handle built for it.
    pub closed spec fn provider_cache(&self) -> Map<u64, usize> {
        self.providers@
    }

    /// The service cache: service id to the handle resolved for it.
    pub closed spec fn service_cache(&self) -> Map<u64, usize> {
        self.services@
    }

    /// The constructions currently in progress, outermost first.
    pub closed spec fn stack(&self) -> Seq<Resolution> {
        self.init_stack@
    }

    /// Every instance constructed so far, in construction order.
    pub closed spec fn instances(&self) -> Seq<Instance> {
        self.built@
    }

    /// Structural soundness of the tables: every bound provider has a
    /// factory, every cached handle is a real instance, the provider cache
    /// maps a provider id to an instance of that provider, and an instance
    /// only points at instances constructed before it.
    pub closed spec fn wf(&self) -> bool {
        &&& self.bindings().dom().finite()
        &&& bindings_backed(self.bindings(), self.factories())
        &&& provider_cache_ok(self.provider_cache(), self.instances())
        &&& service_cache_ok(self.service_cache(), self.instances())
        &&& deps_closed(self.instances())
    }

    /// Soundness of the in-progress stack: every step comes from the binding
    /// table and is neither provider- nor service-cached yet, no service is
    /// being resolved twice, and each step is a declared dependency of the
    /// one below it.
    spec fn stack_ok(&self) -> bool {
        &&& stack_entries_ok(
            self.stack(),
            self.bindings(),
            self.provider_cache(),
            self.service_cache(),
        )
        &&& stack_distinct(self.stack())
        &&& stack_chain(self.stack(), self.factories())
    }

    /// Bound on the constructions a resolution can still start: services
    /// that are bound but not yet on the stack.
    spec fn measure(&self) -> int {
        self.bindings().dom().len() - self.stack().len()
    }

    proof fn lemma_stack_bound(&self)
        requires
            self.bindings().dom().finite(),
            stack_entries_ok(
                self.stack(),
                self.bindings(),
                self.provider_cache(),
                self.service_cache(),
            ),
            stack_distinct(self.stack()),
        ensures
            self.stack().len() <= self.bindings().dom().len(),
    {
        let ids = Seq::new(self.stack().len(), |i: int| self.stack()[i].service.id);
        lemma_distinct_ids_le(ids, self.bindings().dom());
    }

    /// The container between public operations: well-formed, with no
    /// construction in progress.
    pub open spec fn inv(&self) -> bool {
        self.wf() && self.stack().len() == 0
    }

    /// Create an empty container, with no bindings, factories or instances.
    pub fn empty() -> (c: Container)
        ensures
            c.inv(),
            c.bindings() == Map::<u64, TypeInfo>::empty(),
            c.factories() == Map::<u64, Seq<TypeInfo>>::empty(),
            c.provider_cache() == Map::<u64, usize>::empty(),
            c.service_cache() == Map::<u64, usize>::empty(),
            c.stack() == Seq::<Resolution>::empty(),
            c.instances() == Seq::<Instance>::empty(),
    {
        Container {
            provider_factories: DepsMap::new(),
            providers: KeyMap::new(),
            services: KeyMap::new(),
            provide_map: KeyMap::new(),
            init_stack: Vec::new(),
            built: Vec::new(),
        }
    }

    /// Create a container pre-populated with the default bindings `hooks`,
    /// replayed in order into an empty container, stopping at the first
    /// failure and returning it — typically a `DuplicateRegistration` when
    /// two hooks bind the same service. With no conflict among the hooks,
    /// success is guaranteed and every hook's binding is in force.
    pub fn auto(hooks: &Vec<DefaultProviderHook>) -> (r: Result<Container, Error>)
        ensures
            match r {
                Ok(c) => {
                    &&& replay_ok(hooks@, hooks@.len() as int)
                    &&& c.inv()
                    &&& c.bindings() == replay_bindings(hooks@, hooks@.len() as int)
                    &&& c.factories() == replay_factories(hooks@, hooks@.len() as int)
                    &&& c.provider_cache() == Map::<u64, usize>::empty()
                    &&& c.service_cache() == Map::<u64, usize>::empty()
                    &&& c.instances() == Seq::<Instance>::empty()
                },
                Err(e) => exists|i: int|
                    {
                        &&& 0 <= i < hooks@.len()
                        &&& replay_ok(hooks@, i)
                        &&& #[trigger] replay_bindings(hooks@, i).contains_key(
                            hooks@[i].service.id,
                        )
                        &&& e == Error::DuplicateRegistration {
                            service: hooks@[i].service,
                            registered_provider: replay_bindings(
                                hooks@,
                                i,
                            )[hooks@[i].service.id],
                            rejected_provider: hooks@[i].provider,
                        }
                    },
            },
            replay_ok(hooks@, hooks@.len() as int) ==> r is Ok,
    {
        let mut c = Container::empty();
        let mut i: usize = 0;
        while i < hooks.len()
            invariant
                i <= hooks@.len(),
                c.inv(),
                replay_ok(hooks@, i as int),
                c.bindings() == replay_bindings(hooks@, i as int),
                c.factories() == replay_factories(hooks@, i as int),
                c.provider_cache() == Map::<u64, usize>::empty(),
                c.service_cache() == Map::<u64, usize>::empty(),
                c.instances() == Seq::<Instance>::empty(),
            decreases hooks@.len() - i,
        {
            match hooks[i].call(&mut c) {
                Ok(()) => {},
                Err(e) => {
                    proof {
                        if replay_ok(hooks@, hooks@.len() as int) {
                            lemma_replay_ok_prefix(hooks@, i as int + 1, hooks@.len() as int);
                        }
                    }
                    return Err(e);
                },
            }
            i = i + 1;
        }
        Ok(c)
    }

    /// Register `provider` as the provider for `service`, replacing any
    /// existing binding for `service`. `deps` lists the services the
    /// provider resolves while being constructed, in order; it is kept only
    /// if no factory for `provider` was installed before.
    ///
    /// Overwriting does not clear cached instances: a service resolved
    /// before the overwrite keeps returning the handle cached under the
    /// earlier binding until the container is rebuilt.
    pub fn register_overwrite(&mut self, provider: TypeInfo, service: TypeInfo, deps: Vec<TypeInfo>)
        requires
            old(self).inv(),
        ensures
            final(self).inv(),
            final(self).factories() == overwrite_factories(old(self).factories(), provider, deps@),
            final(self).bindings() == overwrite_bindings(
                old(self).bindings(),
                old(self).factories(),
                provider,
                service,
            ),
            final(self).provider_cache() == old(self).provider_cache(),
            final(self).service_cache() == old(self).service_cache(),
            final(self).instances() == old(self).instances(),
            final(self).stack() == old(self).stack(),
    {
        if !self.provider_factories.contains_key(provider.id) {
            if service.id != provider.id {
                // self-registration fallback: keep the concrete provider
                // type resolvable as its own service
                self.provide_map.insert(provider.id, provider);
            }
            self.provider_factories.insert(provider.id, deps);
        }
        self.provide_map.insert(service.id, provider);
        proof {
            self.provide_map.lemma_finite();
            assert forall|s: u64| #[trigger] self.bindings().contains_key(s) implies self
                .factories().contains_key(self.bindings()[s].id) by {
                if s != service.id && s != provider.id {
                    assert(old(self).bindings().contains_key(s));
                    assert(self.bindings()[s] == old(self).bindings()[s]);
                }
            }
            assert(self.wf());
        }
    }

    /// Register `provider` as the provider for `service`.
    ///
    /// Fails with `DuplicateRegistration`, changing nothing, if a provider
    /// is already registered for `service`; the earlier binding stays
    /// intact. Otherwise it succeeds and has the effect of
    /// [`Container::register_overwrite`].
    pub fn register(&mut self, provider: TypeInfo, service: TypeInfo, deps: Vec<TypeInfo>) -> (r:
        Result<(), Error>)
        requires
            old(self).inv(),
        ensures
            final(self).inv(),
            old(self).bindings().contains_key(service.id) ==> r == Err::<(), Error>(
                Error::DuplicateRegistration {
                    service,
                    registered_provider: old(self).bindings()[service.id],
                    rejected_provider: provider,
                },
            ) && *final(self) == *old(self),
            !old(self).bindings().contains_key(service.id) ==> {
                &&& r == Ok::<(), Error>(())
                &&& final(self).factories() == overwrite_factories(
                    old(self).factories(),
                    provider,
                    deps@,
                )
                &&& final(self).bindings() == overwrite_bindings(
                    old(self).bindings(),
                    old(self).factories(),
                    provider,
                    service,
                )
                &&& final(self).provider_cache() == old(self).provider_cache()
                &&& final(self).service_cache() == old(self).service_cache()
                &&& final(self).instances() == old(self).instances()
            },
    {
        if let Some(prev) = self.provide_map.get(service.id) {
            return Err(
                Error::DuplicateRegistration {
                    service,
                    registered_provider: *prev,
                    rejected_provider: provider,
                },
            );
        }
        self.register_overwrite(provider, service, deps);
        Ok(())
    }

    /// Whether asking for `service` respects the chain of constructions in
    /// progress: either nothing is being constructed, or the construction on
    /// top of the stack declares `service` as one of its dependencies.
    spec fn may_request(&self, service: TypeInfo) -> bool {
        self.stack().len() > 0 ==> {
            let top = self.stack().last();
            &&& self.factories().contains_key(top.provider.id)
            &&& dep_link(self.factories()[top.provider.id], service)
        }
    }

    /// What success of a resolution step guarantees, beyond caching the
    /// returned handle: the instance belongs to the bound provider, the
    /// handle is now the provider's cached singleton, a provider already
    /// cached is returned as is without constructing anything, and a freshly
    /// constructed instance holds the handle cached for each of its
    /// dependency services.
    pub open spec fn resolved_ok(pre: Container, post: Container, service: TypeInfo, h: usize) -> bool {
        let p = pre.bindings()[service.id];
        &&& pre.bindings().contains_key(service.id)
        &&& post.instances()[h as int].provider.id == p.id
        &&& post.provider_cache().contains_key(p.id)
        &&& post.provider_cache()[p.id] == h
        &&& (pre.provider_cache().contains_key(p.id) ==> {
            &&& h == pre.provider_cache()[p.id]
            &&& post.instances() == pre.instances()
            &&& post.provider_cache() == pre.provider_cache()
            &&& post.service_cache() == pre.service_cache().insert(service.id, h)
        })
        &&& (!pre.provider_cache().contains_key(p.id) ==> instance_matches(
            post.instances()[h as int],
            p,
            pre.factories()[p.id],
            post.service_cache(),
        ))
    }

    /// What an error of a resolution step pins down: a `NoProvider` names a
    /// service that is neither bound nor cached, a `DependencyCycle` reports
    /// a genuine cycle among the registered bindings, and no other error can
    /// come out of resolution.
    pub open spec fn resolve_err_ok(pre: Container, service: TypeInfo, e: Error) -> bool {
        match e {
            Error::NoProvider { service: t } => !pre.bindings().contains_key(t.id)
                && !pre.service_cache().contains_key(t.id),
            Error::DependencyCycle { service: t, stack: snap } => {
                &&& cycle_report_ok(snap@, pre.bindings(), pre.factories())
                &&& t.id == snap@.last().service.id
                &&& seq_le(pre.stack(), snap@)
                &&& snap@.len() > pre.stack().len()
                &&& snap@[pre.stack().len() as int].service.id == service.id
            },
            _ => false,
        }
    }

    /// Resolve `service` as one step of the construction in progress.
    fn resolve_rec(&mut self, service: TypeInfo) -> (r: Result<usize, Error>)
        requires
            old(self).wf(),
            old(self).stack_ok(),
            old(self).may_request(service),
        ensures
            final(self).wf(),
            final(self).stack_ok(),
            evolves_to(*old(self), *final(self)),
            old(self).service_cache().contains_key(service.id) ==> r == Ok::<usize, Error>(
                old(self).service_cache()[service.id],
            ) && *final(self) == *old(self),
            !old(self).service_cache().contains_key(service.id) && !old(self).bindings().contains_key(
                service.id,
            ) ==> r == Err::<usize, Error>(Error::NoProvider { service }) && *final(self) == *old(self),
            match r {
                Ok(h) => {
                    &&& h < final(self).instances().len()
                    &&& final(self).service_cache().contains_key(service.id)
                    &&& final(self).service_cache()[service.id] == h
                    &&& (!old(self).service_cache().contains_key(service.id)
                        ==> Self::resolved_ok(*old(self), *final(self), service, h))
                },
                Err(e) => Self::resolve_err_ok(*old(self), service, e),
            },
            resolvable(*old(self), service) ==> r is Ok,
            r is Ok ==> resolvable(*old(self), service),
            caches_justified(*old(self), *final(self)),
            new_instances_cached(*old(self), *final(self)),
        decreases old(self).measure(), 2int,
    {
        if let Some(h) = self.services.get(service.id) {
            proof {
                lemma_caches_justified_refl(*old(self), *self);
                assert(service_ok(
                    old(self).bindings(),
                    old(self).factories(),
                    old(self).provider_cache(),
                    old(self).service_cache(),
                    service.id,
                    0,
                ));
            }
            return Ok(*h);
        }
        self.init_service(service)
    }

    /// Resolve an uncached `service`: find its binding, make sure its
    /// provider is constructed, and cache the handle for the service.
    fn init_service(&mut self, service: TypeInfo) -> (r: Result<usize, Error>)
        requires
            old(self).wf(),
            old(self).stack_ok(),
            old(self).may_request(service),
            !old(self).service_cache().contains_key(service.id),
        ensures
            final(self).wf(),
            final(self).stack_ok(),
            evolves_to(*old(self), *final(self)),
            !old(self).bindings().contains_key(service.id) ==> r == Err::<usize, Error>(
                Error::NoProvider { service },
            ) && *final(self) == *old(self),
            match r {
                Ok(h) => {
                    &&& h < final(self).instances().len()
                    &&& final(self).service_cache().contains_key(service.id)
                    &&& final(self).service_cache()[service.id] == h
                    &&& Self::resolved_ok(*old(self), *final(self), service, h)
                },
                Err(e) => Self::resolve_err_ok(*old(self), service, e),
            },
            resolvable(*old(self), service) ==> r is Ok,
            r is Ok ==> resolvable(*old(self), service),
            caches_justified(*old(self), *final(self)),
            new_instances_cached(*old(self), *final(self)),
        decreases old(self).measure(), 1int,
    {
        let provider: TypeInfo = match self.provide_map.get(service.id) {
            Some(p) => *p,
            None => {
                proof {
                    lemma_caches_justified_refl(*old(self), *self);
                }
                return Err(Error::NoProvider { service });
            },
        };
        let resolution = Resolution { service, provider };
        let cached: Option<usize> = match self.providers.get(provider.id) {
            Some(h) => Some(*h),
            None => None,
        };
        let handle: usize = match cached {
            Some(h) => h,
            None => {
                match self.init_provider(resolution) {
                    Ok(h) => h,
                    Err(e) => {
                        return Err(e);
                    },
                }
            },
        };
        let ghost mid = *self;
        proof {
            // no construction in progress resolves this service, so caching
            // it keeps every stack step uncached
            assert forall|i: int|
                0 <= i < self.stack().len() implies (#[trigger] self.stack()[i]).service.id
                != service.id by {
                if self.stack()[i].service.id == service.id {
                    assert(self.stack()[i].provider.id == self.bindings()[service.id].id);
                    assert(!self.provider_cache().contains_key(self.stack()[i].provider.id));
                }
            }
            if old(self).provider_cache().contains_key(provider.id) {
                lemma_caches_justified_refl(*old(self), mid);
            }
        }
        self.services.insert(service.id, handle);
        proof {
            // the freshly cached service was resolvable all along: its
            // provider was constructible from the state this call started in
            let b = old(self).bindings();
            let f = old(self).factories();
            let pc0 = old(self).provider_cache();
            let sc0 = old(self).service_cache();
            assert(mid.provider_cache().contains_key(provider.id));
            assert(provider_justified(b, f, pc0, sc0, provider.id));
            let fl = choose|fl: nat| provider_ok(b, f, pc0, sc0, provider.id, fl);
            assert(service_ok(b, f, pc0, sc0, service.id, fl));
            assert forall|t: u64| #[trigger] self.service_cache().contains_key(
                t,
            ) implies service_justified(b, f, pc0, sc0, t) by {
                if t != service.id {
                    assert(mid.service_cache().contains_key(t));
                }
            }
            assert(caches_justified(*old(self), *self));
        }
        Ok(handle)
    }

    /// Construct the provider of the resolution step `res`: push the step,
    /// refuse it as a cycle if an equal step is already in progress, resolve
    /// the provider's dependencies, pop the step whatever the outcome, and
    /// on success cache the constructed instance for the provider.
    fn init_provider(&mut self, res: Resolution) -> (r: Result<usize, Error>)
        requires
            old(self).wf(),
            old(self).stack_ok(),
            old(self).may_request(res.service),
            old(self).bindings().contains_key(res.service.id),
            old(self).bindings()[res.service.id].id == res.provider.id,
            !old(self).provider_cache().contains_key(res.provider.id),
            !old(self).service_cache().contains_key(res.service.id),
        ensures
            final(self).wf(),
            final(self).stack_ok(),
            evolves_to(*old(self), *final(self)),
            match r {
                Ok(h) => {
                    &&& h < final(self).instances().len()
                    &&& final(self).provider_cache().contains_key(res.provider.id)
                    &&& final(self).provider_cache()[res.provider.id] == h
                    &&& instance_matches(
                        final(self).instances()[h as int],
                        res.provider,
                        old(self).factories()[res.provider.id],
                        final(self).service_cache(),
                    )
                    &&& !final(self).service_cache().contains_key(res.service.id)
                    &&& forall|i: int|
                        0 <= i < final(self).stack().len() ==> (#[trigger] final(self).stack()[i]).service.id != res.service.id
                },
                Err(e) => match e {
                    Error::NoProvider { service: t } => !old(self).bindings().contains_key(t.id)
                        && !old(self).service_cache().contains_key(t.id),
                    Error::DependencyCycle { service: t, stack: snap } => {
                        &&& cycle_report_ok(snap@, old(self).bindings(), old(self).factories())
                        &&& t.id == snap@.last().service.id
                        &&& seq_le(old(self).stack().push(res), snap@)
                        &&& snap@.len() > old(self).stack().len()
                    },
                    _ => false,
                },
            },
            resolvable(*old(self), res.service) ==> r is Ok,
            caches_justified(*old(self), *final(self)),
            new_instances_cached(*old(self), *final(self)),
        decreases old(self).measure(), 0int,
    {
        let cycle = stack_contains(&self.init_stack, &res);
        self.init_stack.push(res);
        if cycle {
            let snap = copy_stack(&self.init_stack);
            self.init_stack.pop();
            proof {
                lemma_caches_justified_refl(*old(self), *self);
                assert(self.stack() =~= old(self).stack());
                assert(snap@ =~= old(self).stack().push(res));
                assert(snap@.last() == res);
                let w = choose|i: int|
                    0 <= i < old(self).stack().len() && (#[trigger] old(self).stack()[i]).is_same(
                        res,
                    );
                assert(snap@[w] == old(self).stack()[w]);
                assert(0 <= w < snap@.len() - 1 && snap@[w].is_same(snap@.last()));
                assert forall|i: int|
                    0 <= i < snap@.len() implies old(self).bindings().contains_key(
                    (#[trigger] snap@[i]).service.id,
                ) && old(self).bindings()[snap@[i].service.id].id == snap@[i].provider.id by {
                    if i < old(self).stack().len() {
                        assert(snap@[i] == old(self).stack()[i]);
                    }
                }
                assert forall|i: int|
                    0 < i < snap@.len() implies old(self).factories().contains_key(
                    snap@[i - 1].provider.id,
                ) && dep_link(
                    old(self).factories()[snap@[i - 1].provider.id],
                    (#[trigger] snap@[i]).service,
                ) by {
                    if i < old(self).stack().len() {
                        assert(snap@[i] == old(self).stack()[i]);
                    } else {
                        assert(i == snap@.len() - 1);
                        assert(snap@[i] == res);
                        assert(snap@[i - 1] == old(self).stack().last());
                    }
                }
                // a step equal to one already in progress closes a genuine
                // cycle, so the service is not resolvable
                if resolvable(*old(self), res.service) {
                    let fuel = choose|fuel: nat|
                        service_ok(
                            old(self).bindings(),
                            old(self).factories(),
                            old(self).provider_cache(),
                            old(self).service_cache(),
                            res.service.id,
                            fuel,
                        );
                    lemma_cycle_unresolvable(
                        old(self).bindings(),
                        old(self).factories(),
                        old(self).provider_cache(),
                        old(self).service_cache(),
                        old(self).stack(),
                        w,
                        res.service,
                        fuel,
                    );
                    assert(false);
                }
            }
            return Err(Error::DependencyCycle { service: res.service, stack: snap });
        }
        let deps_len: usize = match self.provider_factories.get(res.provider.id) {
            Some(dl) => dl.len(),
            None => unreached(),
        };
        let mut handles: Vec<usize> = Vec::new();
        let mut k: usize = 0;
        proof {
            lemma_caches_justified_refl(*old(self), *self);
        }
        while k < deps_len
            invariant
                self.wf(),
                self.stack_ok(),
                caches_justified(*old(self), *self),
                new_instances_cached(*old(self), *self),
                self.bindings() == old(self).bindings(),
                self.factories() == old(self).factories(),
                self.stack() == old(self).stack().push(res),
                map_le(old(self).service_cache(), self.service_cache()),
                map_le(old(self).provider_cache(), self.provider_cache()),
                seq_le(old(self).instances(), self.instances()),
                self.factories().contains_key(res.provider.id),
                k <= deps_len,
                deps_len == self.factories()[res.provider.id].len(),
                handles@.len() == k as int,
                forall|j: int| 0 <= j < k ==> #[trigger] handles@[j] < self.instances().len(),
                forall|j: int|
                    0 <= j < k ==> self.service_cache().contains_key(
                        (#[trigger] self.factories()[res.provider.id][j]).id,
                    ) && self.service_cache()[self.factories()[res.provider.id][j].id]
                        == handles@[j],
            decreases deps_len - k,
        {
            let d: TypeInfo = match self.provider_factories.get(res.provider.id) {
                Some(dl) => dl[k],
                None => unreached(),
            };
            proof {
                assert(self.stack().last() == res);
                assert(self.factories()[res.provider.id][k as int].id == d.id);
                assert(dep_link(self.factories()[res.provider.id], d));
                self.lemma_stack_bound();
            }
            let ghost mid = *self;
            match self.resolve_rec(d) {
                Ok(h) => {
                    handles.push(h);
                    proof {
                        lemma_caches_justified_trans(*old(self), mid, *self);
                        lemma_new_instances_trans(*old(self), mid, *self);
                    }
                },
                Err(e) => {
                    self.init_stack.pop();
                    proof {
                        lemma_caches_justified_trans(*old(self), mid, *self);
                        lemma_new_instances_trans(*old(self), mid, *self);
                        assert(self.stack() =~= old(self).stack());
                        // a resolvable service has every dependency of its
                        // provider resolvable, so this failure refutes the
                        // resolvability of the service itself
                        if resolvable(*old(self), res.service) {
                            let fuel = choose|fuel: nat|
                                service_ok(
                                    old(self).bindings(),
                                    old(self).factories(),
                                    old(self).provider_cache(),
                                    old(self).service_cache(),
                                    res.service.id,
                                    fuel,
                                );
                            assert(service_ok(
                                old(self).bindings(),
                                old(self).factories(),
                                old(self).provider_cache(),
                                old(self).service_cache(),
                                d.id,
                                (fuel - 1) as nat,
                            ));
                            lemma_service_ok_monotone(
                                old(self).bindings(),
                                old(self).factories(),
                                old(self).provider_cache(),
                                old(self).service_cache(),
                                mid.provider_cache(),
                                mid.service_cache(),
                                d.id,
                                (fuel - 1) as nat,
                            );
                            assert(resolvable(mid, d));
                            assert(false);
                        }
                    }
                    return Err(e);
                },
            }
            k = k + 1;
        }
        let ghost done = *self;
        proof {
            // no other construction in progress builds this same provider:
            // the step above it in the chain would be one of our
            // dependencies, all of which are cached by now, while every
            // stack step's service is uncached
            let st = self.stack();
            let dl = self.factories()[res.provider.id];
            assert forall|i: int|
                0 <= i < st.len() - 1 implies (#[trigger] st[i]).provider.id
                != res.provider.id by {
                if st[i].provider.id == res.provider.id {
                    assert(dep_link(self.factories()[st[i].provider.id], st[i + 1].service));
                    let m = choose|m: int| 0 <= m < dl.len() && dl[m].id == st[i + 1].service.id;
                    assert(self.service_cache().contains_key(dl[m].id));
                    assert(!self.service_cache().contains_key(st[i + 1].service.id));
                }
            }
            assert forall|i: int|
                0 <= i < st.len() - 1 implies (#[trigger] st[i]).service.id != res.service.id by {
                if st[i].service.id == res.service.id {
                    assert(st[i].service.id != st[st.len() - 1].service.id);
                    assert(st[st.len() - 1] == res);
                }
            }
        }
        self.init_stack.pop();
        proof {
            assert(self.stack() =~= old(self).stack());
        }
        let handle = self.built.len();
        self.built.push(Instance { provider: res.provider, deps: handles });
        let ghost cur = *self;
        self.providers.insert(res.provider.id, handle);
        proof {
            // the freshly constructed provider was constructible from the
            // entry state: all its dependencies were, with one common fuel
            let b = old(self).bindings();
            let f = old(self).factories();
            let pc0 = old(self).provider_cache();
            let sc0 = old(self).service_cache();
            let dl = f[res.provider.id];
            assert forall|j: int| 0 <= j < dl.len() implies service_justified(
                b,
                f,
                pc0,
                sc0,
                (#[trigger] dl[j]).id,
            ) by {
                assert(cur.service_cache().contains_key(dl[j].id));
            }
            let uf = lemma_deps_uniform_fuel(b, f, pc0, sc0, dl);
            assert(provider_ok(b, f, pc0, sc0, res.provider.id, uf + 1));
            assert forall|q: u64| #[trigger] self.provider_cache().contains_key(
                q,
            ) implies provider_justified(b, f, pc0, sc0, q) by {
                if q != res.provider.id {
                    assert(cur.provider_cache().contains_key(q));
                }
            }
            assert(caches_justified(*old(self), *self));
            assert(seq_le(old(self).instances(), self.instances()));
            assert(self.instances()[handle as int].provider.id == res.provider.id);
            assert(provider_cache_ok(self.provider_cache(), self.instances()));
            assert(service_cache_ok(self.service_cache(), self.instances()));
            assert(deps_closed(self.instances()));
            assert(stack_entries_ok(
                self.stack(),
                self.bindings(),
                self.provider_cache(),
                self.service_cache(),
            ));
            assert(self.wf());
            assert(self.stack_ok());
            // the appended instances are exactly the providers newly cached:
            // those the dependency loop constructed, and this one
            assert forall|i: int|
                old(self).instances().len() <= i < self.instances().len() implies {
                let q = (#[trigger] self.instances()[i]).provider.id;
                &&& !old(self).provider_cache().contains_key(q)
                &&& self.provider_cache().contains_key(q)
                &&& self.provider_cache()[q] == i
            } by {
                if i < handle {
                    assert(self.instances()[i] == done.instances()[i]);
                    let q = done.instances()[i].provider.id;
                    assert(done.provider_cache().contains_key(q));
                    assert(q != res.provider.id);
                } else {
                    assert(i == handle);
                }
            }
        }
        Ok(handle)
    }

    /// Resolve an instance of `service`, returning its handle: the index of
    /// the constructed instance, which [`Container::instance`] exposes.
    ///
    /// Resolution succeeds exactly on the resolvable services: those already
    /// cached, or constructible from the registered bindings and factories.
    /// A service already resolved returns its cached handle with the
    /// container untouched, so repeated resolution yields the identical
    /// instance and runs no factory again. A service with no binding fails
    /// with `NoProvider`; a resolution that would re-enter a construction
    /// already in progress fails with `DependencyCycle` carrying the full
    /// chain. Whatever the outcome, no binding is lost, no instance is
    /// rebuilt, and no construction is left in progress.
    pub fn resolve(&mut self, service: TypeInfo) -> (r: Result<usize, Error>)
        requires
            old(self).inv(),
        ensures
            final(self).inv(),
            evolves_to(*old(self), *final(self)),
            old(self).service_cache().contains_key(service.id) ==> r == Ok::<usize, Error>(
                old(self).service_cache()[service.id],
            ) && *final(self) == *old(self),
            !old(self).service_cache().contains_key(service.id) && !old(self).bindings().contains_key(
                service.id,
            ) ==> r == Err::<usize, Error>(Error::NoProvider { service }) && *final(self) == *old(self),
            match r {
                Ok(h) => {
                    &&& h < final(self).instances().len()
                    &&& final(self).service_cache().contains_key(service.id)
                    &&& final(self).service_cache()[service.id] == h
                    &&& (!old(self).service_cache().contains_key(service.id)
                        ==> Self::resolved_ok(*old(self), *final(self), service, h))
                },
                Err(e) => Self::resolve_err_ok(*old(self), service, e),
            },
            (r is Ok) <==> resolvable(*old(self), service),
            caches_justified(*old(self), *final(self)),
            new_instances_cached(*old(self), *final(self)),
            old(self).bindings().contains_key(service.id) && old(self).provider_cache().contains_key(
                old(self).bindings()[service.id].id,
            ) ==> r is Ok,
            old(self).bindings().contains_key(service.id) && (forall|j: int|
                0 <= j < old(self).factories()[old(self).bindings()[service.id].id].len()
                    ==> old(self).service_cache().contains_key(
                    (#[trigger] old(self).factories()[old(self).bindings()[service.id].id][j]).id,
                )) ==> r is Ok,
    {
        proof {
            // the two corollaries are instances of resolvability: a cached
            // provider needs no construction round, and one whose
            // dependencies are all cached needs a single round
            let b = old(self).bindings();
            let f = old(self).factories();
            let pc = old(self).provider_cache();
            let sc = old(self).service_cache();
            if b.contains_key(service.id) && pc.contains_key(b[service.id].id) {
                assert(service_ok(b, f, pc, sc, service.id, 0));
            }
            if b.contains_key(service.id) && (forall|j: int|
                0 <= j < f[b[service.id].id].len() ==> sc.contains_key(
                    (#[trigger] f[b[service.id].id][j]).id,
                )) {
                assert forall|k: int| 0 <= k < f[b[service.id].id].len() implies service_ok(
                    b,
                    f,
                    pc,
                    sc,
                    (#[trigger] f[b[service.id].id][k]).id,
                    0,
                ) by {}
                assert(provider_ok(b, f, pc, sc, b[service.id].id, 1));
                assert(service_ok(b, f, pc, sc, service.id, 1));
            }
        }
        self.resolve_rec(service)
    }

    /// How many instances have been constructed so far.
    pub fn instance_count(&self) -> (n: usize)
        ensures
            n == self.instances().len(),
    {
        self.built.len()
    }

    /// The instance a handle refers to.
    pub fn instance(&self, handle: usize) -> (inst: &Instance)
        requires
            handle < self.instances().len(),
        ensures
            *inst == self.instances()[handle as int],
    {
        &self.built[handle]
    }
}

} // verus!


