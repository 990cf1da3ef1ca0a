use vstd::pervasive::VecAdditionalExecFns;
use vstd::prelude::*;
use vstd::std_specs::cmp::PartialEqSpec;

use crate::stdio::Stdio;

verus! {

/// Mathematical model of an invocation spec: every field as a plain
/// mathematical value. The environment is an ordered sequence of
/// entries with pairwise distinct keys; an entry whose value is `None`
/// records a soft removal (the variable must not be inherited).
pub struct CommandModel {
    /// Program path or name to execute.
    pub name: Seq<char>,
    /// Arguments in insertion order; duplicates permitted.
    pub arguments: Seq<Seq<char>>,
    /// Whether the child environment starts from the parent's.
    pub inherit_environment: bool,
    /// Explicit environment deltas, keys pairwise distinct.
    pub environment: Seq<(Seq<char>, Option<Seq<char>>)>,
    /// Working-directory override, if any.
    pub current_dir: Option<Seq<char>>,
    /// Disposition of the child's standard input, if set.
    pub stdin: Option<Stdio>,
    /// Disposition of the child's standard output, if set.
    pub stdout: Option<Stdio>,
    /// Disposition of the child's standard error, if set.
    pub stderr: Option<Stdio>,
}

/// Value recorded for `key` in an association sequence: the last
/// matching entry wins (with distinct keys, the only matching entry).
pub open spec fn assoc_lookup<V>(entries: Seq<(Seq<char>, V)>, key: Seq<char>) -> Option<V>
    decreases entries.len(),
{
    if entries.len() == 0 {
        None
    } else if entries.last().0 == key {
        Some(entries.last().1)
    } else {
        assoc_lookup(entries.drop_last(), key)
    }
}

/// The keys of an association sequence are pairwise distinct.
pub open spec fn assoc_keys_unique<V>(entries: Seq<(Seq<char>, V)>) -> bool {
    forall|i: int, j: int| 0 <= i < j < entries.len() ==> entries[i].0 != entries[j].0
}

/// What the environment records for `key`: `None` when the key is
/// untouched, `Some(None)` for a soft removal, `Some(Some(v))` for an
/// explicitly set value.
pub open spec fn env_lookup(
    env: Seq<(Seq<char>, Option<Seq<char>>)>,
    key: Seq<char>,
) -> Option<Option<Seq<char>>> {
    assoc_lookup(env, key)
}

/// A lookup misses exactly when no entry carries the key.
pub proof fn lemma_assoc_lookup_none<V>(entries: Seq<(Seq<char>, V)>, key: Seq<char>)
    ensures
        assoc_lookup(entries, key) is None <==> (forall|i: int|
            0 <= i < entries.len() ==> entries[i].0 != key),
    decreases entries.len(),
{
    if entries.len() > 0 {
        lemma_assoc_lookup_none(entries.drop_last(), key);
        assert(forall|i: int| 0 <= i < entries.len() - 1 ==> entries[i] == entries.drop_last()[i]);
    }
}

/// A lookup returns the value of the last entry carrying the key.
pub proof fn lemma_assoc_lookup_last<V>(entries: Seq<(Seq<char>, V)>, key: Seq<char>, i: int)
    requires
        0 <= i < entries.len(),
        entries[i].0 == key,
        forall|j: int| i < j < entries.len() ==> entries[j].0 != key,
    ensures
        assoc_lookup(entries, key) == Some(entries[i].1),
    decreases entries.len(),
{
    if i < entries.len() - 1 {
        assert(entries.drop_last()[i] == entries[i]);
        assert(forall|j: int| 0 <= j < entries.len() - 1 ==> entries.drop_last()[j] == entries[j]);
        lemma_assoc_lookup_last(entries.drop_last(), key, i);
    }
}

/// With distinct keys, a lookup that hits returns the value of the one
/// entry that carries the key.
pub proof fn lemma_assoc_lookup_at<V>(entries: Seq<(Seq<char>, V)>, key: Seq<char>, i: int)
    requires
        assoc_keys_unique(entries),
        0 <= i < entries.len(),
        entries[i].0 == key,
    ensures
        assoc_lookup(entries, key) == Some(entries[i].1),
    decreases entries.len(),
{
    if i < entries.len() - 1 {
        assert(entries.drop_last()[i] == entries[i]);
        lemma_assoc_lookup_at(entries.drop_last(), key, i);
    }
}

impl CommandModel {
    /// Validity: environment keys are pairwise distinct.
    pub open spec fn wf(self) -> bool {
        assoc_keys_unique(self.environment)
    }

    /// The model a freshly constructed spec has: no arguments, inherit
    /// the parent environment, no explicit entries, no directory
    /// override, all three stream dispositions unset.
    pub open spec fn fresh(name: Seq<char>) -> CommandModel {
        CommandModel {
            name: name,
            arguments: Seq::empty(),
            inherit_environment: true,
            environment: Seq::empty(),
            current_dir: None,
            stdin: None,
            stdout: None,
            stderr: None,
        }
    }
}

/// `m` with its argument sequence replaced.
pub open spec fn with_arguments(m: CommandModel, arguments: Seq<Seq<char>>) -> CommandModel {
    CommandModel { arguments, ..m }
}

/// `m` with its environment entries replaced.
pub open spec fn with_environment(
    m: CommandModel,
    environment: Seq<(Seq<char>, Option<Seq<char>>)>,
) -> CommandModel {
    CommandModel { environment, ..m }
}

/// `m` with its inheritance flag replaced.
pub open spec fn with_inherit(m: CommandModel, inherit_environment: bool) -> CommandModel {
    CommandModel { inherit_environment, ..m }
}

/// `m` with its working-directory override replaced.
pub open spec fn with_current_dir(m: CommandModel, current_dir: Option<Seq<char>>) -> CommandModel {
    CommandModel { current_dir, ..m }
}

/// Position of the one entry carrying `key`, or `-1` when no entry
/// does.
pub open spec fn assoc_index_of<V>(entries: Seq<(Seq<char>, V)>, key: Seq<char>) -> int
    decreases entries.len(),
{
    if entries.len() == 0 {
        -1
    } else if entries.last().0 == key {
        entries.len() - 1
    } else {
        assoc_index_of(entries.drop_last(), key)
    }
}

/// The index and the lookup agree: a missed lookup has index `-1`, a
/// hit points at an entry carrying the key and its value.
pub proof fn lemma_assoc_index_of<V>(entries: Seq<(Seq<char>, V)>, key: Seq<char>)
    ensures
        assoc_lookup(entries, key) is None ==> assoc_index_of(entries, key) == -1,
        assoc_lookup(entries, key) is Some ==> {
            let i = assoc_index_of(entries, key);
            &&& 0 <= i < entries.len()
            &&& entries[i].0 == key
            &&& assoc_lookup(entries, key) == Some(entries[i].1)
        },
    decreases entries.len(),
{
    if entries.len() > 0 && entries.last().0 != key {
        lemma_assoc_index_of(entries.drop_last(), key);
    }
}

/// With distinct keys, the index of `key` is the position of any entry
/// that carries it.
pub proof fn lemma_assoc_index_unique<V>(entries: Seq<(Seq<char>, V)>, key: Seq<char>, i: int)
    requires
        assoc_keys_unique(entries),
        0 <= i < entries.len(),
        entries[i].0 == key,
    ensures
        assoc_index_of(entries, key) == i,
{
    lemma_assoc_lookup_none(entries, key);
    lemma_assoc_index_of(entries, key);
}

/// The environment with `key` bound to `value`: the one entry carrying
/// `key` is overwritten in place, or a new entry is appended.
pub open spec fn env_put_spec(
    env: Seq<(Seq<char>, Option<Seq<char>>)>,
    key: Seq<char>,
    value: Option<Seq<char>>,
) -> Seq<(Seq<char>, Option<Seq<char>>)> {
    if env_lookup(env, key) is Some {
        env.update(assoc_index_of(env, key), (key, value))
    } else {
        env.push((key, value))
    }
}

/// Binding one key neither disturbs the other keys nor breaks
/// distinctness.
pub proof fn lemma_env_put(
    env: Seq<(Seq<char>, Option<Seq<char>>)>,
    key: Seq<char>,
    value: Option<Seq<char>>,
)
    requires
        assoc_keys_unique(env),
    ensures
        assoc_keys_unique(env_put_spec(env, key, value)),
        env_lookup(env_put_spec(env, key, value), key) == Some(value),
        forall|k: Seq<char>| k != key ==> env_lookup(env_put_spec(env, key, value), k)
            == env_lookup(env, k),
        env_lookup(env, key) is Some ==> env_put_spec(env, key, value).len() == env.len(),
{
    let put = env_put_spec(env, key, value);
    lemma_assoc_index_of(env, key);
    if env_lookup(env, key) is Some {
        let idx = assoc_index_of(env, key);
        assert(assoc_keys_unique(put));
        lemma_assoc_lookup_at(put, key, idx);
        assert forall|k: Seq<char>| k != key implies env_lookup(put, k) == env_lookup(env, k) by {
            lemma_assoc_lookup_none(env, k);
            lemma_assoc_lookup_none(put, k);
            if env_lookup(env, k) is Some {
                let j = choose|j: int| 0 <= j < env.len() && env[j].0 == k;
                lemma_assoc_lookup_at(env, k, j);
                lemma_assoc_lookup_at(put, k, j);
            } else {
                assert(forall|i: int| 0 <= i < put.len() ==> put[i].0 != k);
            }
        }
    } else {
        lemma_assoc_lookup_none(env, key);
        assert(assoc_keys_unique(put));
        assert(env_lookup(put, key) == Some(value));
        assert forall|k: Seq<char>| k != key implies env_lookup(put, k) == env_lookup(env, k) by {
            assert(put.drop_last() =~= env);
        }
    }
}

/// A process builder held as a pure value: the program name, its
/// arguments, the environment deltas, the working-directory override
/// and the stream dispositions, decoupled from any live execution.
///
/// The spec is constructed by [`Command::new`] and mutated exclusively
/// through the builder and setter methods, which keep the environment
/// keys pairwise distinct. Equality is structural over the recorded
/// contents; the environment compares as the mapping it records, so
/// the order in which its entries were inserted does not matter.
#[derive(Debug)]
pub struct Command {
    name: String,
    arguments: Vec<String>,
    inherit_environment: bool,
    environment: Vec<(String, Option<String>)>,
    current_dir: Option<String>,
    stdin: Option<Stdio>,
    stdout: Option<Stdio>,
    stderr: Option<Stdio>,
}

impl View for Command {
    type V = CommandModel;

    closed spec fn view(&self) -> CommandModel {
        CommandModel {
            name: self.name@,
            arguments: self.arguments.deep_view(),
            inherit_environment: self.inherit_environment,
            environment: self.environment.deep_view(),
            current_dir: self.current_dir.deep_view(),
            stdin: self.stdin,
            stdout: self.stdout,
            stderr: self.stderr,
        }
    }
}

impl Command {
    /// Validity: the recorded environment keys are pairwise distinct.
    /// Every spec reachable through this interface satisfies it.
    pub open spec fn wf(&self) -> bool {
        self@.wf()
    }

    /// Constructs a new spec for program `name` with the documented
    /// defaults: no arguments, inherit the parent environment, no
    /// explicit environment entries, no working-directory override,
    /// all three stream dispositions unset.
    pub fn new(name: String) -> (r: Self)
        ensures
            r@ == CommandModel::fresh(name@),
            r.wf(),
    {
        let r = Command {
            name,
            arguments: Vec::new(),
            inherit_environment: true,
            environment: Vec::new(),
            current_dir: None,
            stdin: None,
            stdout: None,
            stderr: None,
        };
        proof {
            assert(r.arguments.deep_view() =~= Seq::<Seq<char>>::empty());
            assert(r.environment.deep_view() =~= Seq::<(Seq<char>, Option<Seq<char>>)>::empty());
        }
        r
    }

    /// Assembles a spec from parts whose environment keys are already
    /// pairwise distinct.
    pub(crate) fn from_parts(
        name: String,
        arguments: Vec<String>,
        inherit_environment: bool,
        environment: Vec<(String, Option<String>)>,
        current_dir: Option<String>,
        stdin: Option<Stdio>,
        stdout: Option<Stdio>,
        stderr: Option<Stdio>,
    ) -> (r: Self)
        requires
            assoc_keys_unique(environment.deep_view()),
        ensures
            r@ == (CommandModel {
                name: name@,
                arguments: arguments.deep_view(),
                inherit_environment,
                environment: environment.deep_view(),
                current_dir: current_dir.deep_view(),
                stdin,
                stdout,
                stderr,
            }),
            r.wf(),
    {
        Command {
            name,
            arguments,
            inherit_environment,
            environment,
            current_dir,
            stdin,
            stdout,
            stderr,
        }
    }

    /// Position of the entry carrying `key`, when one does.
    fn env_find(env: &Vec<(String, Option<String>)>, key: &String) -> (r: Option<usize>)
        requires
            assoc_keys_unique(env.deep_view()),
        ensures
            match r {
                Some(i) => i < env.len() && assoc_index_of(env.deep_view(), key@) == i as int,
                None => env_lookup(env.deep_view(), key@) is None,
            },
    {
        let ghost dv = env.deep_view();
        let mut i: usize = 0;
        while i < env.len()
            invariant
                i <= env.len(),
                dv == env.deep_view(),
                dv.len() == env.len(),
                assoc_keys_unique(dv),
                forall|j: int| 0 <= j < i ==> dv[j].0 != key@,
            decreases env.len() - i,
        {
            if env[i].0 == *key {
                proof {
                    assert(dv[i as int].0 == key@);
                    lemma_assoc_index_unique(dv, key@, i as int);
                }
                return Some(i);
            }
            proof {
                assert(dv[i as int].0 != key@);
            }
            i += 1;
        }
        proof {
            lemma_assoc_lookup_none(dv, key@);
        }
        None
    }

    /// Records `key -> value` as the environment's one entry for `key`,
    /// overwriting in place or appending.
    fn env_put(&mut self, key: String, value: Option<String>)
        requires
            old(self).wf(),
        ensures
            final(self).wf(),
            final(self)@ == with_environment(
                old(self)@,
                env_put_spec(old(self)@.environment, key@, value.deep_view()),
            ),
    {
        let ghost old_env = self@.environment;
        let ghost k = key@;
        let ghost v = value.deep_view();
        proof {
            lemma_env_put(old_env, k, v);
            lemma_assoc_index_of(old_env, k);
        }
        match Self::env_find(&self.environment, &key) {
            Some(i) => {
                self.environment.set(i, (key, value));
                proof {
                    assert(self.environment.deep_view() =~= old_env.update(
                        assoc_index_of(old_env, k),
                        (k, v),
                    ));
                }
            },
            None => {
                self.environment.push((key, value));
                proof {
                    assert(self.environment.deep_view() =~= old_env.push((k, v)));
                }
            },
        }
    }

    /// Appends one argument to pass to the program.
    pub fn add_arg(&mut self, arg: String)
        ensures
            final(self)@ == with_arguments(old(self)@, old(self)@.arguments.push(arg@)),
    {
        let ghost a = arg@;
        self.arguments.push(arg);
        proof {
            assert(self.arguments.deep_view() =~= old(self).arguments.deep_view().push(a));
        }
    }

    /// Appends multiple arguments to pass to the program, in order.
    pub fn add_args(&mut self, args: Vec<String>)
        ensures
            final(self)@ == with_arguments(old(self)@, old(self)@.arguments + args.deep_view()),
    {
        let ghost dv = args.deep_view();
        let ghost orig = self@.arguments;
        let mut i: usize = 0;
        while i < args.len()
            invariant
                i <= args.len(),
                dv == args.deep_view(),
                dv.len() == args.len(),
                self@ == with_arguments(old(self)@, orig + dv.take(i as int)),
                orig == old(self)@.arguments,
            decreases args.len() - i,
        {
            self.add_arg(args[i].clone());
            proof {
                assert(dv.take(i + 1).drop_last() =~= dv.take(i as int));
                assert(dv.take(i + 1).last() == dv[i as int]);
                assert(orig + dv.take(i + 1) =~= (orig + dv.take(i as int)).push(dv[i as int]));
            }
            i += 1;
        }
        proof {
            assert(dv.take(args.len() as int) =~= dv);
        }
    }

    /// Inserts or updates an environment variable with a present value.
    pub fn set_env(&mut self, key: String, val: String)
        requires
            old(self).wf(),
        ensures
            final(self).wf(),
            final(self)@ == with_environment(
                old(self)@,
                env_put_spec(old(self)@.environment, key@, Some(val@)),
            ),
    {
        self.env_put(key, Some(val));
    }

    /// Inserts or updates multiple environment variables, in order,
    /// each with a present value.
    pub fn set_envs(&mut self, vars: Vec<(String, String)>)
        requires
            old(self).wf(),
        ensures
            final(self).wf(),
            final(self)@ == with_environment(
                old(self)@,
                env_put_many(old(self)@.environment, vars.deep_view()),
            ),
    {
        let ghost dv = vars.deep_view();
        let ghost orig = self@.environment;
        let mut i: usize = 0;
        while i < vars.len()
            invariant
                i <= vars.len(),
                dv == vars.deep_view(),
                dv.len() == vars.len(),
                self.wf(),
                self@ == with_environment(old(self)@, env_put_many(orig, dv.take(i as int))),
                orig == old(self)@.environment,
            decreases vars.len() - i,
        {
            let key = vars[i].0.clone();
            let val = vars[i].1.clone();
            self.env_put(key, Some(val));
            proof {
                assert(dv.take(i + 1).drop_last() =~= dv.take(i as int));
                assert(dv.take(i + 1).last() == dv[i as int]);
            }
            i += 1;
        }
        proof {
            assert(dv.take(vars.len() as int) =~= dv);
        }
    }

    /// Records a soft removal: `key` must not appear in the child's
    /// environment even when it would otherwise be inherited. It is
    /// meaningful only while `inherit_environment` is true; against an
    /// empty base it communicates nothing.
    pub fn remove_env(&mut self, key: String)
        requires
            old(self).wf(),
        ensures
            final(self).wf(),
            final(self)@ == with_environment(
                old(self)@,
                env_put_spec(old(self)@.environment, key@, None),
            ),
    {
        self.env_put(key, None);
    }

    /// Sets the working directory for the child process.
    pub fn set_current_dir(&mut self, path: String)
        ensures
            final(self)@ == with_current_dir(old(self)@, Some(path@)),
    {
        self.current_dir = Some(path);
    }

    /// Adds an argument to pass to the program; chainable.
    pub fn arg(self, arg: String) -> (r: Self)
        ensures
            r@ == with_arguments(self@, self@.arguments.push(arg@)),
    {
        let mut s = self;
        s.add_arg(arg);
        s
    }

    /// Adds multiple arguments to pass to the program; chainable.
    pub fn args(self, args: Vec<String>) -> (r: Self)
        ensures
            r@ == with_arguments(self@, self@.arguments + args.deep_view()),
    {
        let mut s = self;
        s.add_args(args);
        s
    }

    /// Inserts or updates an environment variable; chainable.
    pub fn env(self, key: String, val: String) -> (r: Self)
        requires
            self.wf(),
        ensures
            r.wf(),
            r@ == with_environment(self@, env_put_spec(self@.environment, key@, Some(val@))),
    {
        let mut s = self;
        s.set_env(key, val);
        s
    }

    /// Inserts or updates multiple environment variables; chainable.
    pub fn envs(self, vars: Vec<(String, String)>) -> (r: Self)
        requires
            self.wf(),
        ensures
            r.wf(),
            r@ == with_environment(self@, env_put_many(self@.environment, vars.deep_view())),
    {
        let mut s = self;
        s.set_envs(vars);
        s
    }

    /// Records a soft removal of an environment variable; chainable.
    pub fn env_remove(self, key: String) -> (r: Self)
        requires
            self.wf(),
        ensures
            r.wf(),
            r@ == with_environment(self@, env_put_spec(self@.environment, key@, None)),
    {
        let mut s = self;
        s.remove_env(key);
        s
    }

    /// Discards all explicit environment entries and stops inheriting
    /// the parent environment: the child starts from an empty
    /// environment, and previously recorded soft removals are void.
    pub fn env_clear(self) -> (r: Self)
        ensures
            r.wf(),
            r@ == with_environment(with_inherit(self@, false), Seq::empty()),
    {
        let mut s = self;
        s.environment.clear();
        s.inherit_environment = false;
        proof {
            assert(s.environment.deep_view() =~= Seq::<(Seq<char>, Option<Seq<char>>)>::empty());
        }
        s
    }

    /// Stops inheriting the parent environment while keeping the
    /// explicit entries: they are applied on top of an empty base.
    pub fn env_no_inherit(self) -> (r: Self)
        ensures
            r@ == with_inherit(self@, false),
    {
        let mut s = self;
        s.inherit_environment = false;
        s
    }

    /// Sets the working directory for the child process; chainable.
    pub fn current_dir(self, key: String) -> (r: Self)
        ensures
            r@ == with_current_dir(self@, Some(key@)),
    {
        let mut s = self;
        s.set_current_dir(key);
        s
    }

    /// Sets the disposition of the child's standard input; chainable.
    pub fn stdin(self, stdin: Stdio) -> (r: Self)
        ensures
            r@ == (CommandModel { stdin: Some(stdin), ..self@ }),
    {
        let mut s = self;
        s.stdin = Some(stdin);
        s
    }

    /// Sets the disposition of the child's standard output; chainable.
    pub fn stdout(self, stdout: Stdio) -> (r: Self)
        ensures
            r@ == (CommandModel { stdout: Some(stdout), ..self@ }),
    {
        let mut s = self;
        s.stdout = Some(stdout);
        s
    }

    /// Sets the disposition of the child's standard error; chainable.
    pub fn stderr(self, stderr: Stdio) -> (r: Self)
        ensures
            r@ == (CommandModel { stderr: Some(stderr), ..self@ }),
    {
        let mut s = self;
        s.stderr = Some(stderr);
        s
    }

    /// The program path or name to execute.
    pub fn get_name(&self) -> (r: &String)
        ensures
            r@ == self@.name,
    {
        &self.name
    }

    /// The recorded arguments, in insertion order.
    pub fn get_arguments(&self) -> (r: &Vec<String>)
        ensures
            r.deep_view() == self@.arguments,
    {
        &self.arguments
    }

    /// Whether the child environment starts from the parent's.
    pub fn inherits_environment(&self) -> (r: bool)
        ensures
            r == self@.inherit_environment,
    {
        self.inherit_environment
    }

    /// The recorded environment entries, in insertion order; an entry
    /// with a `None` value is a soft removal.
    pub fn get_environment(&self) -> (r: &Vec<(String, Option<String>)>)
        ensures
            r.deep_view() == self@.environment,
    {
        &self.environment
    }

    /// What the environment records for `key`: `None` when the key is
    /// untouched, `Some(None)` for a soft removal, `Some(Some(v))` for
    /// an explicitly set value.
    pub fn get_env(&self, key: &String) -> (r: Option<Option<String>>)
        requires
            self.wf(),
        ensures
            r.deep_view() == env_lookup(self@.environment, key@),
    {
        match Self::env_find(&self.environment, key) {
            Some(i) => {
                proof {
                    lemma_assoc_index_of(self@.environment, key@);
                }
                match &self.environment[i].1 {
                    Some(s) => Some(Some(s.clone())),
                    None => Some(None),
                }
            },
            None => None,
        }
    }

    /// The working-directory override, if any.
    pub fn get_current_dir(&self) -> (r: &Option<String>)
        ensures
            r.deep_view() == self@.current_dir,
    {
        &self.current_dir
    }

    /// The recorded disposition of the child's standard input, if set.
    pub fn get_stdin(&self) -> (r: Option<Stdio>)
        ensures
            r == self@.stdin,
    {
        self.stdin
    }

    /// The recorded disposition of the child's standard output, if set.
    pub fn get_stdout(&self) -> (r: Option<Stdio>)
        ensures
            r == self@.stdout,
    {
        self.stdout
    }

    /// The recorded disposition of the child's standard error, if set.
    pub fn get_stderr(&self) -> (r: Option<Stdio>)
        ensures
            r == self@.stderr,
    {
        self.stderr
    }
}

impl Clone for Command {
    /// Cloning yields a spec with exactly the same model; the clone
    /// owns its contents, so later mutation of either value leaves the
    /// other untouched.
    fn clone(&self) -> (r: Self)
        ensures
            r@ == self@,
    {
        Command {
            name: self.name.clone(),
            arguments: clone_string_vec(&self.arguments),
            inherit_environment: self.inherit_environment,
            environment: clone_env_vec(&self.environment),
            current_dir: match &self.current_dir {
                Some(d) => Some(d.clone()),
                None => None,
            },
            stdin: self.stdin,
            stdout: self.stdout,
            stderr: self.stderr,
        }
    }
}

impl PartialEq for Command {
    /// Structural equality: field contents compared deeply. Arguments
    /// compare in order; the environment compares as the mapping it
    /// records, whatever the order of its entries.
    fn eq(&self, other: &Self) -> (r: bool) {
        let names_eq = self.name == other.name;
        let args_eq = string_vecs_equal(&self.arguments, &other.arguments);
        let env_eq = env_maps_equal(&self.environment, &other.environment);
        let dir_eq = match (&self.current_dir, &other.current_dir) {
            (Some(a), Some(b)) => *a == *b,
            (None, None) => true,
            _ => false,
        };
        let r = names_eq && args_eq && self.inherit_environment == other.inherit_environment
            && env_eq && dir_eq && stdio_opt_equal(self.stdin, other.stdin) && stdio_opt_equal(
            self.stdout,
            other.stdout,
        ) && stdio_opt_equal(self.stderr, other.stderr);
        proof {
            let a = self@;
            let b = other@;
            if env_eq {
                assert forall|k: Seq<char>|
                    env_lookup(a.environment, k) == env_lookup(b.environment, k) by {
                    assert(env_lookup(self.environment.deep_view(), k) == env_lookup(
                        other.environment.deep_view(),
                        k,
                    ));
                }
            } else {
                let k = choose|k: Seq<char>|
                    env_lookup(self.environment.deep_view(), k) != env_lookup(
                        other.environment.deep_view(),
                        k,
                    );
                assert(env_lookup(a.environment, k) != env_lookup(b.environment, k));
            }
        }
        r
    }
}

impl vstd::std_specs::cmp::PartialEqSpecImpl for Command {
    open spec fn obeys_eq_spec() -> bool {
        true
    }

    open spec fn eq_spec(&self, other: &Command) -> bool {
        let a = self@;
        let b = other@;
        &&& a.name == b.name
        &&& a.arguments == b.arguments
        &&& a.inherit_environment == b.inherit_environment
        &&& (forall|k: Seq<char>| env_lookup(a.environment, k) == env_lookup(b.environment, k))
        &&& a.current_dir == b.current_dir
        &&& a.stdin == b.stdin
        &&& a.stdout == b.stdout
        &&& a.stderr == b.stderr
    }
}

impl Eq for Command {}

/// Clones a vector of strings, element for element.
pub(crate) fn clone_string_vec(v: &Vec<String>) -> (r: Vec<String>)
    ensures
        r.deep_view() == v.deep_view(),
{
    let mut r: Vec<String> = Vec::new();
    let mut i: usize = 0;
    while i < v.len()
        invariant
            i <= v.len(),
            r@.len() == i,
            forall|j: int| 0 <= j < i ==> r@[j]@ == v@[j]@,
        decreases v.len() - i,
    {
        r.push(v[i].clone());
        i += 1;
    }
    proof {
        assert forall|j: int| 0 <= j < v@.len() implies r.deep_view()[j] == v.deep_view()[j] by {
            assert(r.deep_view()[j] == r@[j]@);
            assert(v.deep_view()[j] == v@[j]@);
        }
        assert(r.deep_view() =~= v.deep_view());
    }
    r
}

/// Clones a vector of environment entries, entry for entry.
pub(crate) fn clone_env_vec(v: &Vec<(String, Option<String>)>) -> (r: Vec<
    (String, Option<String>),
>)
    ensures
        r.deep_view() == v.deep_view(),
{
    let mut r: Vec<(String, Option<String>)> = Vec::new();
    let mut i: usize = 0;
    while i < v.len()
        invariant
            i <= v.len(),
            r@.len() == i,
            forall|j: int| 0 <= j < i ==> #[trigger] r@[j].deep_view() == v@[j].deep_view(),
        decreases v.len() - i,
    {
        let key = v[i].0.clone();
        let value = match &v[i].1 {
            Some(s) => Some(s.clone()),
            None => None,
        };
        r.push((key, value));
        proof {
            assert(r@[i as int].deep_view() == v@[i as int].deep_view());
        }
        i += 1;
    }
    proof {
        assert forall|j: int| 0 <= j < v@.len() implies r.deep_view()[j] == v.deep_view()[j] by {
            assert(r.deep_view()[j] == r@[j].deep_view());
            assert(v.deep_view()[j] == v@[j].deep_view());
        }
        assert(r.deep_view() =~= v.deep_view());
    }
    r
}

/// Whether two string vectors hold the same strings in the same order.
fn string_vecs_equal(a: &Vec<String>, b: &Vec<String>) -> (r: bool)
    ensures
        r == (a.deep_view() == b.deep_view()),
{
    if a.len() != b.len() {
        proof {
            assert(a.deep_view().len() != b.deep_view().len());
        }
        return false;
    }
    let mut i: usize = 0;
    while i < a.len()
        invariant
            i <= a.len(),
            a.len() == b.len(),
            a.deep_view().len() == a.len(),
            b.deep_view().len() == b.len(),
            forall|j: int| 0 <= j < i ==> a.deep_view()[j] == b.deep_view()[j],
        decreases a.len() - i,
    {
        proof {
            assert(a.deep_view()[i as int] == a@[i as int]@);
            assert(b.deep_view()[i as int] == b@[i as int]@);
        }
        if !(a[i] == b[i]) {
            proof {
                assert(a.deep_view()[i as int] != b.deep_view()[i as int]);
            }
            return false;
        }
        i += 1;
    }
    proof {
        assert(a.deep_view() =~= b.deep_view());
    }
    true
}

/// What an environment-entry vector records for `key`, the last entry
/// winning, as the executable counterpart of [`env_lookup`].
fn env_lookup_last(v: &Vec<(String, Option<String>)>, key: &String) -> (r: Option<Option<String>>)
    ensures
        r.deep_view() == env_lookup(v.deep_view(), key@),
{
    let ghost dv = v.deep_view();
    let mut i: usize = v.len();
    while i > 0
        invariant
            i <= v.len(),
            dv == v.deep_view(),
            dv.len() == v.len(),
            forall|j: int| i <= j < dv.len() ==> dv[j].0 != key@,
        decreases i,
    {
        i = i - 1;
        proof {
            assert(dv[i as int] == (v@[i as int].0@, v@[i as int].1.deep_view()));
        }
        if v[i].0 == *key {
            proof {
                lemma_assoc_lookup_last(dv, key@, i as int);
            }
            let r = match &v[i].1 {
                Some(s) => Some(Some(s.clone())),
                None => Some(None),
            };
            return r;
        }
    }
    proof {
        lemma_assoc_lookup_none(dv, key@);
    }
    None
}

/// Whether two environment-entry vectors record the same mapping: the
/// same value (or soft removal) for every key, whatever the order of
/// the entries.
fn env_maps_equal(a: &Vec<(String, Option<String>)>, b: &Vec<(String, Option<String>)>) -> (r:
    bool)
    ensures
        r == (forall|k: Seq<char>| env_lookup(a.deep_view(), k) == env_lookup(b.deep_view(), k)),
{
    let ghost adv = a.deep_view();
    let ghost bdv = b.deep_view();
    let mut i: usize = 0;
    while i < a.len()
        invariant
            i <= a.len(),
            adv == a.deep_view(),
            bdv == b.deep_view(),
            adv.len() == a.len(),
            forall|j: int| 0 <= j < i ==> env_lookup(adv, adv[j].0) == env_lookup(bdv, adv[j].0),
        decreases a.len() - i,
    {
        proof {
            assert(adv[i as int] == (a@[i as int].0@, a@[i as int].1.deep_view()));
        }
        let left = env_lookup_last(a, &a[i].0);
        let right = env_lookup_last(b, &a[i].0);
        if !opt_opt_equal(&left, &right) {
            return false;
        }
        i += 1;
    }
    let mut j: usize = 0;
    while j < b.len()
        invariant
            j <= b.len(),
            adv == a.deep_view(),
            bdv == b.deep_view(),
            bdv.len() == b.len(),
            forall|k: int| 0 <= k < adv.len() ==> env_lookup(adv, adv[k].0) == env_lookup(
                bdv,
                adv[k].0,
            ),
            forall|k: int| 0 <= k < j ==> env_lookup(adv, bdv[k].0) == env_lookup(bdv, bdv[k].0),
        decreases b.len() - j,
    {
        proof {
            assert(bdv[j as int] == (b@[j as int].0@, b@[j as int].1.deep_view()));
        }
        let left = env_lookup_last(a, &b[j].0);
        let right = env_lookup_last(b, &b[j].0);
        if !opt_opt_equal(&left, &right) {
            return false;
        }
        j += 1;
    }
    proof {
        assert forall|k: Seq<char>| env_lookup(adv, k) == env_lookup(bdv, k) by {
            lemma_assoc_lookup_none(adv, k);
            lemma_assoc_lookup_none(bdv, k);
            if env_lookup(adv, k) is Some {
                let m = choose|m: int| 0 <= m < adv.len() && adv[m].0 == k;
                assert(env_lookup(adv, adv[m].0) == env_lookup(bdv, adv[m].0));
            } else if env_lookup(bdv, k) is Some {
                let m = choose|m: int| 0 <= m < bdv.len() && bdv[m].0 == k;
                assert(env_lookup(adv, bdv[m].0) == env_lookup(bdv, bdv[m].0));
            }
        }
    }
    true
}

/// Whether two recorded environment values are equal.
fn opt_opt_equal(a: &Option<Option<String>>, b: &Option<Option<String>>) -> (r: bool)
    ensures
        r == (a.deep_view() == b.deep_view()),
{
    match (a, b) {
        (Some(Some(x)), Some(Some(y))) => *x == *y,
        (Some(None), Some(None)) => true,
        (None, None) => true,
        _ => false,
    }
}

/// Whether two optional dispositions are equal.
fn stdio_opt_equal(a: Option<Stdio>, b: Option<Stdio>) -> (r: bool)
    ensures
        r == (a == b),
{
    match (a, b) {
        (Some(x), Some(y)) => x == y,
        (None, None) => true,
        _ => false,
    }
}

/// Two specs with the same model compare equal; in particular a clone,
/// whose model equals its original's, compares equal to it.
pub proof fn lemma_same_model_equal(a: &Command, b: &Command)
    requires
        a@ == b@,
    ensures
        a.eq_spec(b),
{
}

/// Clearing the environment and then setting `key` to `value` leaves
/// inheritance off and exactly the one entry `key -> value`, whatever
/// the spec held before.
pub proof fn lemma_clear_then_set(m: CommandModel, key: Seq<char>, value: Seq<char>)
    ensures
        ({
            let cleared = with_environment(with_inherit(m, false), Seq::empty());
            let set = with_environment(
                cleared,
                env_put_spec(cleared.environment, key, Some(value)),
            );
            &&& !set.inherit_environment
            &&& set.environment == seq![(key, Some(value))]
        }),
{
    let cleared = with_environment(with_inherit(m, false), Seq::empty());
    assert(env_lookup(cleared.environment, key) is None);
    assert(env_put_spec(cleared.environment, key, Some(value)) =~= seq![(key, Some(value))]);
}

/// The environment after inserting each of `vars` in order, every one
/// with a present value.
pub open spec fn env_put_many(
    env: Seq<(Seq<char>, Option<Seq<char>>)>,
    vars: Seq<(Seq<char>, Seq<char>)>,
) -> Seq<(Seq<char>, Option<Seq<char>>)>
    decreases vars.len(),
{
    if vars.len() == 0 {
        env
    } else {
        env_put_spec(env_put_many(env, vars.drop_last()), vars.last().0, Some(vars.last().1))
    }
}

} // verus!
