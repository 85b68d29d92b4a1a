//! Environments: chained name-to-value scopes.
//!
//! An environment is a stack of frames; the last frame is the innermost
//! scope. `env_get`, `env_define` and `env_assign` are the mathematical
//! scope rules; every method is proved against them.
use crate::value::{clone_value, val_wf, ErrView, FddlValue, RuntimeError, ValueView};
use vstd::prelude::*;
use vstd::string::StringExecFns;

verus! {

/// One binding of a name to a value.
pub struct Binding {
    pub name: String,
    pub value: FddlValue,
}

/// One scope frame, as a sequence of bindings.
pub type FrameV = Seq<(Seq<char>, ValueView)>;

/// A chain of scopes, the innermost last.
pub type EnvV = Seq<FrameV>;

/// The views of a frame's bindings.
pub open spec fn bindings_view(s: Seq<Binding>) -> FrameV
    decreases s,
{
    if s.len() == 0 {
        Seq::empty()
    } else {
        bindings_view(s.drop_last()).push((s.last().name@, s.last().value@))
    }
}

/// The views of a stack of frames.
pub open spec fn frames_view(s: Seq<Vec<Binding>>) -> EnvV
    decreases s,
{
    if s.len() == 0 {
        Seq::empty()
    } else {
        frames_view(s.drop_last()).push(bindings_view(s.last()@))
    }
}

/// The first binding of this name in the frame, scanning from `j`.
pub open spec fn frame_find_from(f: FrameV, n: Seq<char>, j: int) -> Option<int>
    decreases f.len() - j,
{
    if j < 0 || j >= f.len() {
        None
    } else if f[j].0 == n {
        Some(j)
    } else {
        frame_find_from(f, n, j + 1)
    }
}

/// The first binding of this name in the frame.
pub open spec fn frame_find(f: FrameV, n: Seq<char>) -> Option<int> {
    frame_find_from(f, n, 0)
}

/// Whether the frame binds this name.
pub open spec fn has_name(f: FrameV, n: Seq<char>) -> bool {
    frame_find(f, n) is Some
}

/// Look a name up, innermost scope first.
pub open spec fn env_get(env: EnvV, n: Seq<char>) -> Option<ValueView>
    decreases env.len(),
{
    if env.len() == 0 {
        None
    } else {
        match frame_find(env.last(), n) {
            Some(i) => Some(env.last()[i].1),
            None => env_get(env.drop_last(), n),
        }
    }
}

/// Bind a name in the innermost scope: replace its binding there, or add
/// one.
pub open spec fn env_define(env: EnvV, n: Seq<char>, v: ValueView) -> EnvV {
    let f = env.last();
    let f2 = match frame_find(f, n) {
        Some(i) => f.update(i, (n, v)),
        None => f.push((n, v)),
    };
    env.update(env.len() - 1, f2)
}

/// Assign to an existing binding, searched innermost scope outward; `None`
/// when no scope binds the name.
pub open spec fn env_assign(env: EnvV, n: Seq<char>, v: ValueView) -> Option<EnvV>
    decreases env.len(),
{
    if env.len() == 0 {
        None
    } else {
        match frame_find(env.last(), n) {
            Some(i) => Some(env.update(env.len() - 1, env.last().update(i, (n, v)))),
            None => match env_assign(env.drop_last(), n, v) {
                Some(outer) => Some(outer.push(env.last())),
                None => None,
            },
        }
    }
}

/// Every value in the environment is well formed.
pub open spec fn env_wf(env: EnvV) -> bool {
    forall|k: int, j: int|
        0 <= k < env.len() && 0 <= j < env[k].len() ==> val_wf(#[trigger] env[k][j].1)
}

/// An owned chain of lexical scopes.
pub struct Environment {
    pub frames: Vec<Vec<Binding>>,
}

impl Environment {
    /// The mathematical image of the environment.
    pub open spec fn view_spec(self) -> EnvV {
        frames_view(self.frames@)
    }

    /// There is always at least the global scope.
    pub open spec fn wf(self) -> bool {
        self.frames@.len() >= 1
    }
}


/// A frame's view has one entry per binding, in order.
pub proof fn lemma_bindings_view(s: Seq<Binding>)
    ensures
        bindings_view(s).len() == s.len(),
        forall|j: int|
            0 <= j < s.len() ==> #[trigger] bindings_view(s)[j] == (s[j].name@, s[j].value@),
    decreases s,
{
    if s.len() > 0 {
        lemma_bindings_view(s.drop_last());
    }
}

/// An environment's view has one frame view per frame, in order.
pub proof fn lemma_frames_view(s: Seq<Vec<Binding>>)
    ensures
        frames_view(s).len() == s.len(),
        forall|k: int|
            0 <= k < s.len() ==> #[trigger] frames_view(s)[k] == bindings_view(s[k]@),
    decreases s,
{
    if s.len() > 0 {
        lemma_frames_view(s.drop_last());
    }
}

/// Assigning where frame `fi` holds the name's innermost binding updates
/// exactly that binding.
proof fn lemma_env_assign_at(env: EnvV, n: Seq<char>, v: ValueView, fi: int, i: int)
    requires
        0 <= fi < env.len(),
        frame_find(env[fi], n) == Some(i),
        forall|m: int| fi < m < env.len() ==> !has_name(#[trigger] env[m], n),
    ensures
        env_assign(env, n, v) == Some(env.update(fi, env[fi].update(i, (n, v)))),
    decreases env.len(),
{
    if fi == env.len() - 1 {
        assert(env.last() == env[fi]);
        assert(env.update(env.len() - 1, env.last().update(i, (n, v))) =~= env.update(
            fi,
            env[fi].update(i, (n, v)),
        ));
    } else {
        assert(!has_name(env.last(), n));
        lemma_env_assign_at(env.drop_last(), n, v, fi, i);
        assert(env.drop_last()[fi] == env[fi]);
        assert((env.drop_last().update(fi, env[fi].update(i, (n, v)))).push(env.last())
            =~= env.update(fi, env[fi].update(i, (n, v))));
    }
}

/// A found binding bears the sought name.
pub proof fn lemma_frame_find_found(f: FrameV, n: Seq<char>, j: int)
    requires
        frame_find_from(f, n, j) is Some,
    ensures
        ({
            let i = frame_find_from(f, n, j).unwrap();
            &&& j <= i < f.len()
            &&& f[i].0 == n
        }),
    decreases f.len() - j,
{
    if 0 <= j < f.len() && f[j].0 != n {
        lemma_frame_find_found(f, n, j + 1);
    }
}

/// A successful assignment keeps the scope structure's length.
pub proof fn lemma_env_assign_len(env: EnvV, n: Seq<char>, v: ValueView)
    requires
        env_assign(env, n, v) is Some,
    ensures
        env_assign(env, n, v).unwrap().len() == env.len(),
    decreases env.len(),
{
    if env.len() > 0 {
        match frame_find(env.last(), n) {
            Some(i) => {},
            None => {
                if env_assign(env.drop_last(), n, v) is Some {
                    lemma_env_assign_len(env.drop_last(), n, v);
                }
            },
        }
    }
}

/// A value found in a well-formed environment is well formed.
pub proof fn lemma_env_get_wf(env: EnvV, n: Seq<char>)
    requires
        env_wf(env),
    ensures
        env_get(env, n) is Some ==> val_wf(env_get(env, n).unwrap()),
    decreases env.len(),
{
    if env.len() > 0 {
        match frame_find(env.last(), n) {
            Some(i) => {
                lemma_frame_find_found(env.last(), n, 0);
                assert(env.last() == env[env.len() - 1]);
            },
            None => {
                assert(forall|k: int, j: int|
                    0 <= k < env.drop_last().len() && 0 <= j < env.drop_last()[k].len()
                        ==> val_wf(#[trigger] env.drop_last()[k][j].1)) by {
                    assert(forall|k: int|
                        0 <= k < env.drop_last().len() ==> env.drop_last()[k] == env[k]);
                }
                lemma_env_get_wf(env.drop_last(), n);
            },
        }
    }
}

/// Assigning a name that no scope binds fails.
proof fn lemma_env_assign_none(env: EnvV, n: Seq<char>, v: ValueView)
    requires
        forall|m: int| 0 <= m < env.len() ==> !has_name(#[trigger] env[m], n),
    ensures
        env_assign(env, n, v) is None,
    decreases env.len(),
{
    if env.len() > 0 {
        lemma_env_assign_none(env.drop_last(), n, v);
    }
}

/// The first binding of this name in the frame, scanning left to right.
fn find_in_frame(frame: &Vec<Binding>, key: &String) -> (r: Option<usize>)
    ensures
        match r {
            Option::Some(i) => frame_find(bindings_view(frame@), key@) == Some(i as int) && i
                < frame.len(),
            Option::None => frame_find(bindings_view(frame@), key@) is None,
        },
{
    proof {
        lemma_bindings_view(frame@);
    }
    let ghost fv = bindings_view(frame@);
    let mut j: usize = 0;
    #[verifier::loop_isolation(false)]
    while j < frame.len()
        invariant
            j <= frame.len(),
            frame_find_from(fv, key@, 0) == frame_find_from(fv, key@, j as int),
        decreases frame.len() - j,
    {
        if <String as PartialEq>::eq(&frame[j].name, key) {
            proof {
                assert(frame_find_from(fv, key@, j as int) == Some(j as int));
            }
            return Option::Some(j);
        }
        proof {
            assert(fv[j as int].0 != key@);
            assert(frame_find_from(fv, key@, j as int) == frame_find_from(fv, key@, j + 1));
        }
        j = j + 1;
    }
    proof {
        assert(frame_find_from(fv, key@, j as int) is None);
    }
    Option::None
}

impl Environment {
    /// A fresh global scope.
    pub fn new() -> (r: Environment)
        ensures
            r.wf(),
            r.view_spec() =~= seq![Seq::<(Seq<char>, ValueView)>::empty()],
            env_wf(r.view_spec()),
    {
        let mut frames: Vec<Vec<Binding>> = Vec::new();
        let inner: Vec<Binding> = Vec::new();
        frames.push(inner);
        proof {
            lemma_frames_view(frames@);
            lemma_bindings_view(inner@);
            assert(frames_view(frames@) =~= seq![Seq::<(Seq<char>, ValueView)>::empty()]);
        }
        Environment { frames }
    }

    /// Enter a new innermost scope.
    pub fn push_scope(&mut self)
        requires
            old(self).wf(),
        ensures
            final(self).wf(),
            final(self).view_spec() == old(self).view_spec().push(
                Seq::<(Seq<char>, ValueView)>::empty(),
            ),
            env_wf(old(self).view_spec()) ==> env_wf(final(self).view_spec()),
    {
        let ghost v0 = self.view_spec();
        let inner: Vec<Binding> = Vec::new();
        self.frames.push(inner);
        proof {
            lemma_bindings_view(inner@);
            assert((self.frames@).drop_last() =~= old(self).frames@);
            assert(frames_view(self.frames@) == frames_view(old(self).frames@).push(
                bindings_view(inner@),
            ));
            assert(bindings_view(inner@) =~= Seq::<(Seq<char>, ValueView)>::empty());
            if env_wf(v0) {
                lemma_frames_view(self.frames@);
                lemma_frames_view(old(self).frames@);
                assert(env_wf(self.view_spec()));
            }
        }
    }

    /// Leave the innermost scope, restoring its parent.
    pub fn pop_scope(&mut self)
        requires
            old(self).wf(),
            old(self).frames@.len() >= 2,
        ensures
            final(self).wf(),
            final(self).view_spec() == old(self).view_spec().drop_last(),
            env_wf(old(self).view_spec()) ==> env_wf(final(self).view_spec()),
    {
        let ghost v0 = self.view_spec();
        let _inner = self.frames.pop();
        proof {
            assert(frames_view(old(self).frames@) == frames_view(
                old(self).frames@.drop_last(),
            ).push(bindings_view(old(self).frames@.last()@)));
            assert(frames_view(old(self).frames@).drop_last() =~= frames_view(
                old(self).frames@.drop_last(),
            ));
            if env_wf(v0) {
                lemma_frames_view(self.frames@);
                lemma_frames_view(old(self).frames@);
                assert(env_wf(self.view_spec()));
            }
        }
    }

    /// A scope enclosed in the given parent scope.
    pub fn new_enclosed(parent_environment: Environment) -> (r: Environment)
        requires
            parent_environment.wf(),
        ensures
            r.wf(),
            r.view_spec() == parent_environment.view_spec().push(
                Seq::<(Seq<char>, ValueView)>::empty(),
            ),
            env_wf(parent_environment.view_spec()) ==> env_wf(r.view_spec()),
    {
        let mut p = parent_environment;
        p.push_scope();
        p
    }

    /// Bind a name in the innermost scope, shadowing any outer binding of
    /// the same name without touching it.
    pub fn define(&mut self, name: String, value: FddlValue)
        requires
            old(self).wf(),
        ensures
            final(self).wf(),
            final(self).view_spec() == env_define(old(self).view_spec(), name@, value@),
            env_wf(old(self).view_spec()) && val_wf(value@) ==> env_wf(final(self).view_spec()),
    {
        let ghost v0 = self.view_spec();
        proof {
            lemma_frames_view(self.frames@);
        }
        let li = self.frames.len() - 1;
        let idx = find_in_frame(&self.frames[li], &name);
        let mut fr = match self.frames.pop() {
            Option::Some(f) => f,
            Option::None => {
                // unreachable: there is always a global scope
                proof {
                    assert(false);
                }
                Vec::new()
            },
        };
        let ghost fr0 = fr@;
        match idx {
            Option::Some(i) => {
                let _old_binding = fr.remove(i);
                fr.insert(i, Binding { name, value });
                proof {
                    assert(fr@ =~= fr0.update(i as int, fr@[i as int]));
                }
            },
            Option::None => {
                fr.push(Binding { name, value });
            },
        }
        self.frames.push(fr);
        proof {
            lemma_bindings_view(fr0);
            lemma_bindings_view(fr@);
            lemma_frames_view(self.frames@);
            lemma_frames_view(old(self).frames@);
            assert(self.frames@ =~= old(self).frames@.update(li as int, fr));
            match idx {
                Option::Some(i) => {
                    assert(bindings_view(fr@) =~= bindings_view(fr0).update(
                        i as int,
                        (name@, value@),
                    ));
                },
                Option::None => {
                    assert(bindings_view(fr@) =~= bindings_view(fr0).push((name@, value@)));
                },
            }
            assert(final(self).view_spec() =~= env_define(v0, name@, value@));
            if env_wf(v0) && val_wf(value@) {
                assert(env_wf(final(self).view_spec()));
            }
        }
    }

    /// The value bound to the name, looked up innermost scope first;
    /// an error naming the variable when no scope binds it.
    pub fn get(&self, name: &str) -> (r: Result<FddlValue, RuntimeError>)
        requires
            self.wf(),
        ensures
            match (r, env_get(self.view_spec(), name@)) {
                (Result::Ok(v), Option::Some(w)) => v@ == w,
                (Result::Err(e), Option::None) => e@ == ErrView::UndefinedVariable(name@),
                _ => false,
            },
    {
        let key = String::from_str(name);
        let ghost v0 = self.view_spec();
        proof {
            lemma_frames_view(self.frames@);
            assert(v0.take(self.frames@.len() as int) =~= v0);
        }
        let mut fi = self.frames.len();
        #[verifier::loop_isolation(false)]
        while fi > 0
            invariant
                fi <= self.frames.len(),
                env_get(v0, name@) == env_get(v0.take(fi as int), name@),
            decreases fi,
        {
            fi = fi - 1;
            let idx = find_in_frame(&self.frames[fi], &key);
            proof {
                assert(v0.take(fi + 1).last() == v0[fi as int]);
                assert(v0.take(fi + 1).drop_last() =~= v0.take(fi as int));
            }
            match idx {
                Option::Some(i) => {
                    proof {
                        lemma_bindings_view(self.frames@[fi as int]@);
                        assert(env_get(v0.take(fi + 1), name@) == Some(v0[fi as int][i as int].1));
                    }
                    return Result::Ok(clone_value(&self.frames[fi][i].value));
                },
                Option::None => {
                    proof {
                        assert(env_get(v0.take(fi + 1), name@) == env_get(
                            v0.take(fi as int),
                            name@,
                        ));
                    }
                },
            }
        }
        proof {
            assert(v0.take(0) =~= Seq::<FrameV>::empty());
            assert(env_get(v0.take(0), name@) is None);
        }
        Result::Err(RuntimeError::UndefinedVariable(key))
    }

    /// Assign to an existing binding, searched innermost scope outward;
    /// an error naming the variable when no scope binds it, the
    /// environment left unchanged.
    pub fn assign(&mut self, name: &str, value: FddlValue) -> (r: Result<(), RuntimeError>)
        requires
            old(self).wf(),
        ensures
            final(self).wf(),
            match (r, env_assign(old(self).view_spec(), name@, value@)) {
                (Result::Ok(u), Option::Some(e2)) => final(self).view_spec() == e2,
                (Result::Err(e), Option::None) => e@ == ErrView::UndefinedVariable(name@) && final(self).view_spec() == old(self).view_spec(),
                _ => false,
            },
            env_wf(old(self).view_spec()) && val_wf(value@) ==> env_wf(final(self).view_spec()),
    {
        let key = String::from_str(name);
        let ghost v0 = self.view_spec();
        proof {
            lemma_frames_view(self.frames@);
        }
        let mut fi = self.frames.len();
        #[verifier::loop_isolation(false)]
        while fi > 0
            invariant
                fi <= self.frames.len(),
                self.frames == old(self).frames,
                forall|m: int| fi <= m < v0.len() ==> !has_name(#[trigger] v0[m], name@),
            decreases fi,
        {
            fi = fi - 1;
            let idx = find_in_frame(&self.frames[fi], &key);
            match idx {
                Option::Some(i) => {
                    let mut fr = self.frames.remove(fi);
                    let ghost fr0 = fr@;
                    let old_binding = fr.remove(i);
                    fr.insert(i, Binding { name: old_binding.name, value });
                    proof {
                        assert(fr@ =~= fr0.update(i as int, fr@[i as int]));
                    }
                    self.frames.insert(fi, fr);
                    proof {
                        lemma_env_assign_at(v0, name@, value@, fi as int, i as int);
                        lemma_frame_find_found(bindings_view(fr0), name@, 0);
                        lemma_bindings_view(fr0);
                        lemma_bindings_view(fr@);
                        lemma_frames_view(self.frames@);
                        lemma_frames_view(old(self).frames@);
                        assert(self.frames@ =~= old(self).frames@.update(fi as int, fr));
                        assert(fr0[i as int].name@ == name@);
                        assert(bindings_view(fr@) =~= bindings_view(fr0).update(
                            i as int,
                            (name@, value@),
                        ));
                        assert(final(self).view_spec() =~= env_assign(
                            v0,
                            name@,
                            value@,
                        ).unwrap());
                        if env_wf(v0) && val_wf(value@) {
                            assert(env_wf(final(self).view_spec()));
                        }
                    }
                    return Result::Ok(());
                },
                Option::None => {
                },
            }
        }
        proof {
            lemma_env_assign_none(v0, name@, value@);
        }
        Result::Err(RuntimeError::UndefinedVariable(key))
    }
}

impl Default for Environment {
    /// A fresh global scope.
    fn default() -> (r: Environment)
        ensures
            r.wf(),
            r.view_spec() =~= seq![Seq::<(Seq<char>, ValueView)>::empty()],
            env_wf(r.view_spec()),
    {
        Environment::new()
    }
}


/// A found binding is the first of its name: nothing before it bears it.
pub proof fn lemma_frame_find_first(f: FrameV, n: Seq<char>, j: int)
    requires
        frame_find_from(f, n, j) is Some,
    ensures
        forall|m: int|
            j <= m < frame_find_from(f, n, j).unwrap() ==> (#[trigger] f[m]).0 != n,
    decreases f.len() - j,
{
    if 0 <= j < f.len() && f[j].0 != n {
        lemma_frame_find_first(f, n, j + 1);
    }
}

/// Updating a binding's value moves no binding: every lookup finds the
/// same entry, with the one value changed.
proof fn lemma_frame_find_update(f: FrameV, n: Seq<char>, i: int, v: ValueView, m: Seq<char>, j: int)
    requires
        0 <= i < f.len(),
        f[i].0 == n,
        frame_find(f, n) == Some(i),
        0 <= j <= f.len(),
    ensures
        frame_find_from(f.update(i, (n, v)), m, j) == frame_find_from(f, m, j),
    decreases f.len() - j,
{
    if j < f.len() {
        assert(f.update(i, (n, v))[j].0 == f[j].0);
        lemma_frame_find_update(f, n, i, v, m, j + 1);
    }
}

/// Law: assignment updates exactly the named binding. A successful
/// assignment makes the name read back as the new value; every other
/// name reads as before, in every scope; and the scope structure is
/// unchanged. An assignment fails exactly when no scope binds the name.
pub proof fn lemma_assign_semantics(env: EnvV, n: Seq<char>, v: ValueView)
    ensures
        (env_assign(env, n, v) is None) <==> (forall|k: int|
            0 <= k < env.len() ==> !has_name(#[trigger] env[k], n)),
        env_assign(env, n, v) matches Some(e2) ==> {
            &&& e2.len() == env.len()
            &&& env_get(e2, n) == Some(v)
            &&& forall|m: Seq<char>| m != n ==> env_get(e2, m) == env_get(env, m)
        },
    decreases env.len(),
{
    if env.len() == 0 {
    } else {
        lemma_assign_semantics(env.drop_last(), n, v);
        match frame_find(env.last(), n) {
            Some(i) => {
                lemma_frame_find_found(env.last(), n, 0);
                let f2 = env.last().update(i, (n, v));
                let e2 = env.update(env.len() - 1, f2);
                assert(e2.last() == f2);
                assert(e2.drop_last() =~= env.drop_last());
                lemma_frame_find_update(env.last(), n, i, v, n, 0);
                assert(frame_find(f2, n) == Some(i));
                assert(f2[i].1 == v);
                assert forall|m: Seq<char>| m != n implies env_get(e2, m) == env_get(
                    env,
                    m,
                ) by {
                    lemma_frame_find_update(env.last(), n, i, v, m, 0);
                    if frame_find(env.last(), m) is Some {
                        let jm = frame_find(env.last(), m).unwrap();
                        lemma_frame_find_found(env.last(), m, 0);
                        assert(f2[jm] == env.last()[jm]);
                    }
                }
            },
            None => {
                match env_assign(env.drop_last(), n, v) {
                    Some(outer) => {
                        let e2 = outer.push(env.last());
                        assert(e2.drop_last() =~= outer);
                        assert(e2.last() == env.last());
                        assert(env_get(e2, n) == Some(v));
                        assert forall|m: Seq<char>| m != n implies env_get(e2, m) == env_get(
                            env,
                            m,
                        ) by {
                            assert(env_get(env.drop_last(), m) == env_get(outer, m));
                        }
                    },
                    None => {
                        assert forall|k: int| 0 <= k < env.len() implies !has_name(
                            #[trigger] env[k],
                            n,
                        ) by {
                            if k < env.len() - 1 {
                                assert(env.drop_last()[k] == env[k]);
                            } else {
                                assert(env[k] == env.last());
                            }
                        }
                    },
                }
            },
        }
        if (forall|k: int| 0 <= k < env.len() ==> !has_name(#[trigger] env[k], n)) {
            assert(forall|k: int|
                0 <= k < env.drop_last().len() ==> #[trigger] env.drop_last()[k] == env[k]);
            assert(!has_name(env.last(), n));
            lemma_env_assign_none(env, n, v);
        }
    }
}

/// Law: a name that no scope binds reads as unbound.
pub proof fn lemma_env_get_none_iff(env: EnvV, n: Seq<char>)
    ensures
        (env_get(env, n) is None) <==> (forall|k: int|
            0 <= k < env.len() ==> !has_name(#[trigger] env[k], n)),
    decreases env.len(),
{
    if env.len() > 0 {
        lemma_env_get_none_iff(env.drop_last(), n);
        assert(forall|k: int|
            0 <= k < env.drop_last().len() ==> #[trigger] env.drop_last()[k] == env[k]);
        assert(env[env.len() - 1] == env.last());
        if env_get(env, n) is None {
            assert(!has_name(env.last(), n));
            assert(env_get(env.drop_last(), n) is None);
            assert forall|k: int| 0 <= k < env.len() implies !has_name(
                #[trigger] env[k],
                n,
            ) by {
                if k < env.len() - 1 {
                    assert(env.drop_last()[k] == env[k]);
                } else {
                    assert(env[k] == env.last());
                }
            }
        }
        if forall|k: int| 0 <= k < env.len() ==> !has_name(#[trigger] env[k], n) {
            assert(!has_name(env[env.len() - 1], n));
            assert(forall|k: int|
                0 <= k < env.drop_last().len() ==> !has_name(#[trigger] env.drop_last()[k], n));
            assert(env_get(env.drop_last(), n) is None);
        }
    }
}


/// Binding a fresh name extends a frame's names by exactly that name.
pub proof fn lemma_frame_find_push(f: FrameV, n: Seq<char>, v: ValueView, x: Seq<char>, j: int)
    requires
        0 <= j <= f.len(),
    ensures
        frame_find_from(f.push((n, v)), x, j) is Some <==> (frame_find_from(f, x, j) is Some || x
            == n),
    decreases f.len() - j,
{
    if j < f.len() {
        assert(f.push((n, v))[j] == f[j]);
        lemma_frame_find_push(f, n, v, x, j + 1);
    } else {
        assert(f.push((n, v))[j] == (n, v));
        assert(frame_find_from(f.push((n, v)), x, j + 1) is None);
        assert(frame_find_from(f, x, j) is None);
    }
}

/// Defining a name touches only the innermost frame, and only to bind
/// that name: every frame's name set is otherwise unchanged.
pub proof fn lemma_env_define_names(env: EnvV, n: Seq<char>, v: ValueView, x: Seq<char>)
    requires
        env.len() >= 1,
    ensures
        env_define(env, n, v).len() == env.len(),
        forall|k: int|
            0 <= k < env.len() - 1 ==> #[trigger] env_define(env, n, v)[k] == env[k],
        has_name(env_define(env, n, v).last(), x) == (has_name(env.last(), x) || x == n),
{
    let f = env.last();
    let e2 = env_define(env, n, v);
    assert(e2.last() == e2[env.len() - 1]);
    match frame_find(f, n) {
        Some(i) => {
            lemma_frame_find_found(f, n, 0);
            lemma_frame_find_update(f, n, i, v, x, 0);
            assert(has_name(f, n));
        },
        None => {
            lemma_frame_find_push(f, n, v, x, 0);
        },
    }
}

/// A successful assignment changes no frame's name set.
pub proof fn lemma_env_assign_names(env: EnvV, n: Seq<char>, v: ValueView, x: Seq<char>)
    requires
        env_assign(env, n, v) is Some,
    ensures
        ({
            let e2 = env_assign(env, n, v).unwrap();
            &&& e2.len() == env.len()
            &&& forall|k: int|
                0 <= k < env.len() ==> has_name(#[trigger] e2[k], x) == has_name(env[k], x)
        }),
    decreases env.len(),
{
    let e2 = env_assign(env, n, v).unwrap();
    match frame_find(env.last(), n) {
        Some(i) => {
            lemma_frame_find_found(env.last(), n, 0);
            lemma_frame_find_update(env.last(), n, i, v, x, 0);
            assert forall|k: int| 0 <= k < env.len() implies has_name(
                #[trigger] e2[k],
                x,
            ) == has_name(env[k], x) by {
                if k < env.len() - 1 {
                    assert(e2[k] == env[k]);
                } else {
                    assert(e2[k] == env.last().update(i, (n, v)));
                }
            }
        },
        None => {
            lemma_env_assign_names(env.drop_last(), n, v, x);
            let outer = env_assign(env.drop_last(), n, v).unwrap();
            assert forall|k: int| 0 <= k < env.len() implies has_name(
                #[trigger] e2[k],
                x,
            ) == has_name(env[k], x) by {
                if k < env.len() - 1 {
                    assert(e2[k] == outer[k]);
                    assert(env.drop_last()[k] == env[k]);
                } else {
                    assert(e2[k] == env.last());
                }
            }
        },
    }
}

} // verus!
