use crate::container::overwrite_bindings;
use crate::container::overwrite_factories;
use crate::container::Container;
use crate::error::Error;
use crate::type_info::TypeInfo;
use vstd::prelude::*;

verus! {

/// One default binding for [`Container::auto`] to replay into a fresh
/// container: register `provider` for `service`, constructing the provider
/// from the dependency services `deps`.
pub struct DefaultProviderHook {
    /// The provider to register
    pub provider: TypeInfo,
    /// The service it provides
    pub service: TypeInfo,
    /// The services the provider resolves while being constructed, in order
    pub deps: Vec<TypeInfo>,
}

/// The binding table after replaying the first `n` hooks into an empty
/// container, stopping nowhere: a conflicting hook simply has no effect.
pub open spec fn replay_bindings(hooks: Seq<DefaultProviderHook>, n: int) -> Map<u64, TypeInfo>
    decreases n,
{
    if n <= 0 {
        Map::empty()
    } else {
        let b = replay_bindings(hooks, n - 1);
        let f = replay_factories(hooks, n - 1);
        let h = hooks[n - 1];
        if b.contains_key(h.service.id) {
            b
        } else {
            overwrite_bindings(b, f, h.provider, h.service)
        }
    }
}

/// The factory table after replaying the first `n` hooks into an empty
/// container.
pub open spec fn replay_factories(hooks: Seq<DefaultProviderHook>, n: int) -> Map<
    u64,
    Seq<TypeInfo>,
>
    decreases n,
{
    if n <= 0 {
        Map::empty()
    } else {
        let b = replay_bindings(hooks, n - 1);
        let f = replay_factories(hooks, n - 1);
        let h = hooks[n - 1];
        if b.contains_key(h.service.id) {
            f
        } else {
            overwrite_factories(f, h.provider, h.deps@)
        }
    }
}

/// Whether the first `n` hooks replay without a registration conflict.
pub open spec fn replay_ok(hooks: Seq<DefaultProviderHook>, n: int) -> bool
    decreases n,
{
    if n <= 0 {
        true
    } else {
        replay_ok(hooks, n - 1) && !replay_bindings(hooks, n - 1).contains_key(
            hooks[n - 1].service.id,
        )
    }
}

/// A conflict-free replay stays conflict-free on every shorter prefix.
pub proof fn lemma_replay_ok_prefix(hooks: Seq<DefaultProviderHook>, m: int, n: int)
    requires
        0 <= m <= n,
        replay_ok(hooks, n),
    ensures
        replay_ok(hooks, m),
    decreases n,
{
    if m < n {
        lemma_replay_ok_prefix(hooks, m, n - 1);
    }
}

/// Law: two independent default bindings for distinct services replay into
/// a fresh container without conflict, and each service ends up bound to
/// its own provider. Independent means the services differ and neither
/// service is the other hook's provider, so the self-registration fallback
/// of the one cannot collide with the binding of the other.
pub proof fn lemma_auto_independent_hooks(h1: DefaultProviderHook, h2: DefaultProviderHook)
    requires
        h1.service.id != h2.service.id,
        h1.provider.id != h2.service.id,
        h1.service.id != h2.provider.id,
    ensures
        replay_ok(seq![h1, h2], 2),
        replay_bindings(seq![h1, h2], 2).contains_key(h1.service.id),
        replay_bindings(seq![h1, h2], 2)[h1.service.id] == h1.provider,
        replay_bindings(seq![h1, h2], 2).contains_key(h2.service.id),
        replay_bindings(seq![h1, h2], 2)[h2.service.id] == h2.provider,
{
    let hooks = seq![h1, h2];
    assert(replay_bindings(hooks, 0) == Map::<u64, TypeInfo>::empty());
    assert(hooks[0] == h1 && hooks[1] == h2);
    assert(replay_ok(hooks, 0));
    assert(replay_ok(hooks, 1));
    let b1 = replay_bindings(hooks, 1);
    assert(!b1.contains_key(h2.service.id));
    assert(replay_ok(hooks, 2));
    assert(b1.contains_key(h1.service.id) && b1[h1.service.id] == h1.provider);
}

/// Law: two default bindings for the same service conflict. The first
/// replays, the second is the first conflict, and the conflict names the
/// provider registered by the first hook.
pub proof fn lemma_auto_duplicate_hooks(h1: DefaultProviderHook, h2: DefaultProviderHook)
    requires
        h1.service.id == h2.service.id,
    ensures
        replay_ok(seq![h1, h2], 1),
        !replay_ok(seq![h1, h2], 2),
        replay_bindings(seq![h1, h2], 1).contains_key(h2.service.id),
        replay_bindings(seq![h1, h2], 1)[h2.service.id] == h1.provider,
{
    let hooks = seq![h1, h2];
    assert(replay_bindings(hooks, 0) == Map::<u64, TypeInfo>::empty());
    assert(hooks[0] == h1 && hooks[1] == h2);
    assert(replay_ok(hooks, 0));
    assert(replay_ok(hooks, 1));
    let b1 = replay_bindings(hooks, 1);
    assert(b1.contains_key(h1.service.id) && b1[h1.service.id] == h1.provider);
    assert(!replay_ok(hooks, 2));
}

/// Copy a list of type keys.
fn copy_keys(v: &Vec<TypeInfo>) -> (out: Vec<TypeInfo>)
    ensures
        out@ == v@,
{
    let mut out: Vec<TypeInfo> = Vec::new();
    let mut i: usize = 0;
    while i < v.len()
        invariant
            i <= v@.len(),
            out@ == v@.take(i as int),
        decreases v@.len() - i,
    {
        out.push(v[i]);
        proof {
            assert(out@ =~= v@.take(i as int + 1));
        }
        i = i + 1;
    }
    proof {
        assert(v@.take(v@.len() as int) =~= v@);
    }
    out
}

impl DefaultProviderHook {
    /// Replay this default binding into the container: one
    /// [`Container::register`] call, with this hook's provider, service and
    /// dependencies.
    pub fn call(&self, container: &mut Container) -> (r: Result<(), Error>)
        requires
            old(container).inv(),
        ensures
            final(container).inv(),
            old(container).bindings().contains_key(self.service.id) ==> r == Err::<(), Error>(
                Error::DuplicateRegistration {
                    service: self.service,
                    registered_provider: old(container).bindings()[self.service.id],
                    rejected_provider: self.provider,
                },
            ) && *final(container) == *old(container),
            !old(container).bindings().contains_key(self.service.id) ==> {
                &&& r == Ok::<(), Error>(())
                &&& final(container).factories() == overwrite_factories(
                    old(container).factories(),
                    self.provider,
                    self.deps@,
                )
                &&& final(container).bindings() == overwrite_bindings(
                    old(container).bindings(),
                    old(container).factories(),
                    self.provider,
                    self.service,
                )
                &&& final(container).provider_cache() == old(container).provider_cache()
                &&& final(container).service_cache() == old(container).service_cache()
                &&& final(container).instances() == old(container).instances()
            },
    {
        let deps = copy_keys(&self.deps);
        container.register(self.provider, self.service, deps)
    }
}

} // verus!
