use vstd::prelude::*;

use crate::command::assoc_keys_unique;
use crate::command::assoc_lookup;
use crate::command::env_lookup;
use crate::command::lemma_assoc_lookup_at;
use crate::command::lemma_assoc_lookup_none;
use crate::command::Command;
use crate::command::CommandModel;
use crate::stdio::Stdio;

verus! {

/// Which execution entry point a configuration is resolved for; the
/// entry points differ only in the defaults they give unset stream
/// dispositions.
#[derive(Clone, Copy, Debug, PartialEq, Eq, Structural)]
pub enum LaunchKind {
    /// Non-blocking start: unset dispositions fall to the native
    /// launcher's own defaults, conventionally inheriting all three.
    Start,
    /// Blocking run that captures output: unset stdout and stderr are
    /// piped, unset stdin is attached to a discard device.
    CaptureOutput,
    /// Blocking run that reports only the exit status: unset
    /// dispositions inherit the caller's streams.
    StatusOnly,
}

/// Mathematical model of a native launch configuration: the exact
/// instructions the conversion hands a native process launcher.
pub struct ConfigModel {
    /// Program to launch.
    pub program: Seq<char>,
    /// Arguments, in order.
    pub args: Seq<Seq<char>>,
    /// Whether the inherited environment is cleared first.
    pub clear_env: bool,
    /// Inherited variables to remove, one by one.
    pub removals: Seq<Seq<char>>,
    /// Variables to set, overwriting anything inherited.
    pub settings: Seq<(Seq<char>, Seq<char>)>,
    /// Working-directory override, if any.
    pub current_dir: Option<Seq<char>>,
    /// Explicit disposition of the child's standard input, if any.
    pub stdin: Option<Stdio>,
    /// Explicit disposition of the child's standard output, if any.
    pub stdout: Option<Stdio>,
    /// Explicit disposition of the child's standard error, if any.
    pub stderr: Option<Stdio>,
}

impl ConfigModel {
    /// Validity: the keys of the variables to set are pairwise
    /// distinct.
    pub open spec fn wf(self) -> bool {
        assoc_keys_unique(self.settings)
    }
}

/// The keys of the soft-removal entries, in order.
pub open spec fn removal_keys(env: Seq<(Seq<char>, Option<Seq<char>>)>) -> Seq<Seq<char>>
    decreases env.len(),
{
    if env.len() == 0 {
        Seq::empty()
    } else {
        let rest = removal_keys(env.drop_last());
        if env.last().1 is None {
            rest.push(env.last().0)
        } else {
            rest
        }
    }
}

/// The present-valued entries, in order.
pub open spec fn present_entries(env: Seq<(Seq<char>, Option<Seq<char>>)>) -> Seq<
    (Seq<char>, Seq<char>),
>
    decreases env.len(),
{
    if env.len() == 0 {
        Seq::empty()
    } else {
        let rest = present_entries(env.drop_last());
        match env.last().1 {
            Some(v) => rest.push((env.last().0, v)),
            None => rest,
        }
    }
}

/// The native launch configuration an invocation spec converts to.
///
/// With inheritance on, the inherited environment is kept and each
/// soft-removal key is removed from it; with inheritance off, the
/// inherited environment is cleared and the removals are void. The
/// present-valued entries are set either way, and arguments, working
/// directory and stream dispositions pass through unchanged.
pub open spec fn spec_convert(m: CommandModel) -> ConfigModel {
    ConfigModel {
        program: m.name,
        args: m.arguments,
        clear_env: !m.inherit_environment,
        removals: if m.inherit_environment {
            removal_keys(m.environment)
        } else {
            Seq::empty()
        },
        settings: present_entries(m.environment),
        current_dir: m.current_dir,
        stdin: m.stdin,
        stdout: m.stdout,
        stderr: m.stderr,
    }
}

/// What the child's environment holds for `key` under spec `m`, with
/// `parent` the (simulated) parent environment: an explicitly set
/// value wins, a soft removal hides the variable, and otherwise the
/// parent's value is inherited exactly when inheritance is on.
pub open spec fn spec_child_lookup(
    m: CommandModel,
    parent: Seq<(Seq<char>, Seq<char>)>,
    key: Seq<char>,
) -> Option<Seq<char>> {
    match env_lookup(m.environment, key) {
        Some(Some(v)) => Some(v),
        Some(None) => None,
        None => if m.inherit_environment {
            assoc_lookup(parent, key)
        } else {
            None
        },
    }
}

/// What a native launcher obeying configuration `c` leaves in the
/// child's environment for `key`, over parent environment `parent`.
pub open spec fn config_child_lookup(
    c: ConfigModel,
    parent: Seq<(Seq<char>, Seq<char>)>,
    key: Seq<char>,
) -> Option<Seq<char>> {
    match assoc_lookup(c.settings, key) {
        Some(v) => Some(v),
        None => if !c.clear_env && !c.removals.contains(key) {
            assoc_lookup(parent, key)
        } else {
            None
        },
    }
}

/// Membership in a pushed sequence.
proof fn lemma_contains_push<T>(s: Seq<T>, x: T, y: T)
    ensures
        s.push(x).contains(y) <==> s.contains(y) || x == y,
{
    if s.contains(y) {
        let i = choose|i: int| 0 <= i < s.len() && s[i] == y;
        assert(s.push(x)[i] == y);
    }
    if x == y {
        assert(s.push(x)[s.len() as int] == y);
    }
    if s.push(x).contains(y) && x != y {
        let i = choose|i: int| 0 <= i < s.push(x).len() && s.push(x)[i] == y;
        assert(s[i] == y);
    }
}

/// A key carried by no entry is absent from the present-valued
/// entries.
proof fn lemma_present_absent(env: Seq<(Seq<char>, Option<Seq<char>>)>, key: Seq<char>)
    requires
        forall|i: int| 0 <= i < env.len() ==> env[i].0 != key,
    ensures
        assoc_lookup(present_entries(env), key) is None,
    decreases env.len(),
{
    if env.len() > 0 {
        assert(forall|i: int| 0 <= i < env.len() - 1 ==> env.drop_last()[i] == env[i]);
        lemma_present_absent(env.drop_last(), key);
        let rest = present_entries(env.drop_last());
        if env.last().1 is Some {
            let p = rest.push((env.last().0, env.last().1.unwrap()));
            assert(present_entries(env) == p);
            assert(p.drop_last() =~= rest);
            assert(p.last().0 != key);
        }
    }
}

/// A key carried by no entry is absent from the removal keys.
proof fn lemma_removal_absent(env: Seq<(Seq<char>, Option<Seq<char>>)>, key: Seq<char>)
    requires
        forall|i: int| 0 <= i < env.len() ==> env[i].0 != key,
    ensures
        !removal_keys(env).contains(key),
    decreases env.len(),
{
    if env.len() > 0 {
        assert(forall|i: int| 0 <= i < env.len() - 1 ==> env.drop_last()[i] == env[i]);
        lemma_removal_absent(env.drop_last(), key);
        if env.last().1 is None {
            lemma_contains_push(removal_keys(env.drop_last()), env.last().0, key);
        }
    }
}

/// With distinct keys, looking a key up among the present-valued
/// entries is looking it up in the environment and keeping only a
/// present value.
proof fn lemma_present_lookup(env: Seq<(Seq<char>, Option<Seq<char>>)>, key: Seq<char>)
    requires
        assoc_keys_unique(env),
    ensures
        assoc_lookup(present_entries(env), key) == (match env_lookup(env, key) {
            Some(Some(v)) => Some(v),
            _ => None::<Seq<char>>,
        }),
    decreases env.len(),
{
    if env.len() > 0 {
        assert(forall|i: int| 0 <= i < env.len() - 1 ==> env.drop_last()[i] == env[i]);
        lemma_present_lookup(env.drop_last(), key);
        let rest = present_entries(env.drop_last());
        if env.last().1 is Some {
            let p = rest.push((env.last().0, env.last().1.unwrap()));
            assert(present_entries(env) == p);
            assert(p.drop_last() =~= rest);
            assert(p.last() == (env.last().0, env.last().1.unwrap()));
        }
        if env.last().0 == key {
            lemma_present_absent(env.drop_last(), key);
        }
    }
}

/// With distinct keys, a key is a removal key exactly when the
/// environment records a soft removal for it.
proof fn lemma_removal_lookup(env: Seq<(Seq<char>, Option<Seq<char>>)>, key: Seq<char>)
    requires
        assoc_keys_unique(env),
    ensures
        removal_keys(env).contains(key) <==> env_lookup(env, key) == Some(
            Option::<Seq<char>>::None,
        ),
    decreases env.len(),
{
    if env.len() > 0 {
        assert(forall|i: int| 0 <= i < env.len() - 1 ==> env.drop_last()[i] == env[i]);
        lemma_removal_lookup(env.drop_last(), key);
        if env.last().0 == key {
            lemma_removal_absent(env.drop_last(), key);
        }
        if env.last().1 is None {
            lemma_contains_push(removal_keys(env.drop_last()), env.last().0, key);
        }
    }
}

/// The conversion is correct: for every key, the environment a native
/// launcher obeying the converted configuration leaves to the child is
/// the one the spec's three-state semantics demands.
pub proof fn lemma_convert_env_semantics(
    m: CommandModel,
    parent: Seq<(Seq<char>, Seq<char>)>,
    key: Seq<char>,
)
    requires
        m.wf(),
    ensures
        config_child_lookup(spec_convert(m), parent, key) == spec_child_lookup(m, parent, key),
{
    lemma_present_lookup(m.environment, key);
    if m.inherit_environment {
        lemma_removal_lookup(m.environment, key);
    }
}

/// The converted configuration's settings keep their keys pairwise
/// distinct.
pub proof fn lemma_convert_wf(m: CommandModel)
    requires
        m.wf(),
    ensures
        spec_convert(m).wf(),
{
    lemma_present_unique(m.environment);
}

/// Distinct environment keys stay distinct among the present-valued
/// entries.
proof fn lemma_present_unique(env: Seq<(Seq<char>, Option<Seq<char>>)>)
    requires
        assoc_keys_unique(env),
    ensures
        assoc_keys_unique(present_entries(env)),
    decreases env.len(),
{
    if env.len() > 0 {
        assert(forall|i: int| 0 <= i < env.len() - 1 ==> env.drop_last()[i] == env[i]);
        lemma_present_unique(env.drop_last());
        if env.last().1 is Some {
            let p = present_entries(env);
            let rest = present_entries(env.drop_last());
            assert forall|i: int, j: int| 0 <= i < j < p.len() implies p[i].0 != p[j].0 by {
                if j == p.len() - 1 {
                    lemma_present_keys_from(env.drop_last(), i);
                    lemma_assoc_lookup_none(present_entries(env.drop_last()), env.last().0);
                    lemma_present_absent(env.drop_last(), env.last().0);
                }
            }
        }
    }
}

/// The disposition in force for each stream under entry point `kind`:
/// an explicitly set disposition wins; an unset one falls to the entry
/// point's default — capture-output pipes stdout and stderr and
/// discards stdin, while the other entry points inherit.
pub open spec fn spec_effective_dispositions(c: ConfigModel, kind: LaunchKind) -> (
    Stdio,
    Stdio,
    Stdio,
) {
    (
        match c.stdin {
            Some(d) => d,
            None => if kind is CaptureOutput {
                Stdio::Null
            } else {
                Stdio::Inherit
            },
        },
        match c.stdout {
            Some(d) => d,
            None => if kind is CaptureOutput {
                Stdio::Piped
            } else {
                Stdio::Inherit
            },
        },
        match c.stderr {
            Some(d) => d,
            None => if kind is CaptureOutput {
                Stdio::Piped
            } else {
                Stdio::Inherit
            },
        },
    )
}

/// The value the parent environment contributes for `key` under
/// configuration `c`: present unless the environment was cleared, the
/// key removed, or the key overwritten by an explicit setting.
pub open spec fn inherited_lookup(
    c: ConfigModel,
    parent: Seq<(Seq<char>, Seq<char>)>,
    key: Seq<char>,
) -> Option<Seq<char>> {
    if !c.clear_env && !c.removals.contains(key) && assoc_lookup(c.settings, key) is None {
        assoc_lookup(parent, key)
    } else {
        None
    }
}

/// Every present-entry key comes from some environment entry.
proof fn lemma_present_keys_from(env: Seq<(Seq<char>, Option<Seq<char>>)>, i: int)
    requires
        0 <= i < present_entries(env).len(),
    ensures
        exists|j: int| 0 <= j < env.len() && env[j].0 == present_entries(env)[i].0,
    decreases env.len(),
{
    if env.len() > 0 {
        let rest = present_entries(env.drop_last());
        if i < rest.len() {
            lemma_present_keys_from(env.drop_last(), i);
            let j = choose|j: int|
                0 <= j < env.drop_last().len() && env.drop_last()[j].0 == rest[i].0;
            assert(env[j].0 == rest[i].0);
            assert(present_entries(env)[i] == rest[i]);
        } else {
            assert(env[env.len() - 1].0 == present_entries(env)[i].0);
        }
    }
}

/// The native launch configuration an invocation spec converts to,
/// held as plain executable values so a thin unverified adapter can
/// replay it against the OS's real process builder.
#[derive(Debug)]
pub struct LaunchConfig {
    program: String,
    args: Vec<String>,
    clear_env: bool,
    removals: Vec<String>,
    settings: Vec<(String, String)>,
    current_dir: Option<String>,
    stdin: Option<Stdio>,
    stdout: Option<Stdio>,
    stderr: Option<Stdio>,
}

impl View for LaunchConfig {
    type V = ConfigModel;

    closed spec fn view(&self) -> ConfigModel {
        ConfigModel {
            program: self.program@,
            args: self.args.deep_view(),
            clear_env: self.clear_env,
            removals: self.removals.deep_view(),
            settings: self.settings.deep_view(),
            current_dir: self.current_dir.deep_view(),
            stdin: self.stdin,
            stdout: self.stdout,
            stderr: self.stderr,
        }
    }
}

impl Command {
    /// The conversion algorithm: produces the native launch
    /// configuration this spec stands for. Pure — no I/O, no OS calls —
    /// so its effect can be examined without launching anything.
    pub fn to_launch_config(&self) -> (r: LaunchConfig)
        requires
            self.wf(),
        ensures
            r@ == spec_convert(self@),
            r@.wf(),
    {
        proof {
            lemma_convert_wf(self@);
        }
        let env = self.get_environment();
        let ghost edv = env.deep_view();
        let inherit = self.inherits_environment();
        let mut removals: Vec<String> = Vec::new();
        let mut settings: Vec<(String, String)> = Vec::new();
        let mut i: usize = 0;
        while i < env.len()
            invariant
                i <= env.len(),
                edv == env.deep_view(),
                edv.len() == env.len(),
                inherit == self@.inherit_environment,
                edv == self@.environment,
                removals.deep_view() == (if inherit {
                    removal_keys(edv.take(i as int))
                } else {
                    Seq::<Seq<char>>::empty()
                }),
                settings.deep_view() == present_entries(edv.take(i as int)),
            decreases env.len() - i,
        {
            proof {
                assert(edv[i as int] == (env@[i as int].0@, env@[i as int].1.deep_view()));
                assert(edv.take(i + 1).drop_last() =~= edv.take(i as int));
                assert(edv.take(i + 1).last() == edv[i as int]);
            }
            let ghost old_removals = removals.deep_view();
            let ghost old_settings = settings.deep_view();
            match &env[i].1 {
                Some(v) => {
                    settings.push((env[i].0.clone(), v.clone()));
                    proof {
                        assert(settings.deep_view() =~= old_settings.push(
                            (edv[i as int].0, edv[i as int].1.unwrap()),
                        ));
                    }
                },
                None => {
                    if inherit {
                        removals.push(env[i].0.clone());
                        proof {
                            assert(removals.deep_view() =~= old_removals.push(edv[i as int].0));
                        }
                    }
                },
            }
            i += 1;
        }
        proof {
            assert(edv.take(env.len() as int) =~= edv);
        }
        let r = LaunchConfig {
            program: self.get_name().clone(),
            args: crate::command::clone_string_vec(self.get_arguments()),
            clear_env: !inherit,
            removals,
            settings,
            current_dir: match self.get_current_dir() {
                Some(d) => Some(d.clone()),
                None => None,
            },
            stdin: self.get_stdin(),
            stdout: self.get_stdout(),
            stderr: self.get_stderr(),
        };
        r
    }
}

impl LaunchConfig {
    /// The program to launch.
    pub fn get_program(&self) -> (r: &String)
        ensures
            r@ == self@.program,
    {
        &self.program
    }

    /// The arguments, in order.
    pub fn get_args(&self) -> (r: &Vec<String>)
        ensures
            r.deep_view() == self@.args,
    {
        &self.args
    }

    /// Whether the inherited environment is cleared first.
    pub fn clears_environment(&self) -> (r: bool)
        ensures
            r == self@.clear_env,
    {
        self.clear_env
    }

    /// The inherited variables to remove.
    pub fn get_removals(&self) -> (r: &Vec<String>)
        ensures
            r.deep_view() == self@.removals,
    {
        &self.removals
    }

    /// The variables to set, overwriting anything inherited.
    pub fn get_settings(&self) -> (r: &Vec<(String, String)>)
        ensures
            r.deep_view() == self@.settings,
    {
        &self.settings
    }

    /// The working-directory override, if any.
    pub fn get_current_dir(&self) -> (r: &Option<String>)
        ensures
            r.deep_view() == self@.current_dir,
    {
        &self.current_dir
    }

    /// The explicit disposition of the child's standard input, if any.
    pub fn get_stdin(&self) -> (r: Option<Stdio>)
        ensures
            r == self@.stdin,
    {
        self.stdin
    }

    /// The explicit disposition of the child's standard output, if any.
    pub fn get_stdout(&self) -> (r: Option<Stdio>)
        ensures
            r == self@.stdout,
    {
        self.stdout
    }

    /// The explicit disposition of the child's standard error, if any.
    pub fn get_stderr(&self) -> (r: Option<Stdio>)
        ensures
            r == self@.stderr,
    {
        self.stderr
    }

    /// The disposition in force for each of stdin, stdout and stderr
    /// under entry point `kind`.
    pub fn effective_dispositions(&self, kind: LaunchKind) -> (r: (Stdio, Stdio, Stdio))
        ensures
            r == spec_effective_dispositions(self@, kind),
    {
        let stdin_d = match self.stdin {
            Some(d) => d,
            None => match kind {
                LaunchKind::CaptureOutput => Stdio::Null,
                _ => Stdio::Inherit,
            },
        };
        let stdout_d = match self.stdout {
            Some(d) => d,
            None => match kind {
                LaunchKind::CaptureOutput => Stdio::Piped,
                _ => Stdio::Inherit,
            },
        };
        let stderr_d = match self.stderr {
            Some(d) => d,
            None => match kind {
                LaunchKind::CaptureOutput => Stdio::Piped,
                _ => Stdio::Inherit,
            },
        };
        (stdin_d, stdout_d, stderr_d)
    }
}

/// Whether `v` holds a string equal to `key`.
fn string_vec_contains(v: &Vec<String>, key: &String) -> (r: bool)
    ensures
        r == v.deep_view().contains(key@),
{
    let ghost dv = v.deep_view();
    let mut i: usize = 0;
    while i < v.len()
        invariant
            i <= v.len(),
            dv == v.deep_view(),
            dv.len() == v.len(),
            forall|j: int| 0 <= j < i ==> dv[j] != key@,
        decreases v.len() - i,
    {
        proof {
            assert(dv[i as int] == v@[i as int]@);
        }
        if v[i] == *key {
            proof {
                assert(dv.contains(key@));
            }
            return true;
        }
        i += 1;
    }
    false
}

/// Whether some entry of `v` carries `key`.
fn assoc_vec_has_key(v: &Vec<(String, String)>, key: &String) -> (r: bool)
    ensures
        r == (assoc_lookup(v.deep_view(), key@) is Some),
{
    let ghost dv = v.deep_view();
    let mut i: usize = 0;
    while i < v.len()
        invariant
            i <= v.len(),
            dv == v.deep_view(),
            dv.len() == v.len(),
            forall|j: int| 0 <= j < i ==> dv[j].0 != key@,
        decreases v.len() - i,
    {
        proof {
            assert(dv[i as int] == (v@[i as int].0@, v@[i as int].1@));
            lemma_assoc_lookup_none(dv, key@);
        }
        if v[i].0 == *key {
            return true;
        }
        i += 1;
    }
    proof {
        lemma_assoc_lookup_none(dv, key@);
    }
    false
}

impl LaunchConfig {
    /// Computes, purely, the environment a child launched under this
    /// configuration would see, over the given (simulated) parent
    /// environment: the parent's surviving entries followed by the
    /// explicit settings, each key at most once.
    pub fn simulate_child_env(&self, parent: &Vec<(String, String)>) -> (r: Vec<(String, String)>)
        requires
            self@.wf(),
            assoc_keys_unique(parent.deep_view()),
        ensures
            assoc_keys_unique(r.deep_view()),
            forall|k: Seq<char>| assoc_lookup(r.deep_view(), k) == config_child_lookup(
                self@,
                parent.deep_view(),
                k,
            ),
    {
        let ghost pdv = parent.deep_view();
        let ghost sdv = self.settings.deep_view();
        let mut r: Vec<(String, String)> = Vec::new();
        proof {
            assert(r.deep_view() =~= Seq::<(Seq<char>, Seq<char>)>::empty());
            assert forall|k: Seq<char>|
                assoc_lookup(r.deep_view(), k) == inherited_lookup(self@, pdv.take(0), k) by {
                assert(pdv.take(0).len() == 0);
            }
        }
        if !self.clear_env {
            let mut i: usize = 0;
            while i < parent.len()
                invariant
                    i <= parent.len(),
                    pdv == parent.deep_view(),
                    pdv.len() == parent.len(),
                    sdv == self.settings.deep_view(),
                    self@.wf(),
                    !self@.clear_env,
                    assoc_keys_unique(pdv),
                    assoc_keys_unique(r.deep_view()),
                    forall|k: Seq<char>| assoc_lookup(r.deep_view(), k) == inherited_lookup(
                        self@,
                        pdv.take(i as int),
                        k,
                    ),
                decreases parent.len() - i,
            {
                let ghost old_dv = r.deep_view();
                proof {
                    assert(pdv[i as int] == (parent@[i as int].0@, parent@[i as int].1@));
                    assert(pdv.take(i + 1).drop_last() =~= pdv.take(i as int));
                    assert(pdv.take(i + 1).last() == pdv[i as int]);
                }
                let key = &parent[i].0;
                let removed = string_vec_contains(&self.removals, key);
                let overwritten = assoc_vec_has_key(&self.settings, key);
                if !removed && !overwritten {
                    proof {
                        if assoc_lookup(old_dv, key@) is Some {
                            lemma_assoc_lookup_none(pdv.take(i as int), key@);
                            let j = choose|j: int|
                                0 <= j < i && #[trigger] pdv.take(i as int)[j].0 == key@;
                            assert(pdv[j].0 == key@ && pdv[i as int].0 == key@);
                            assert(false);
                        }
                        lemma_assoc_lookup_none(old_dv, key@);
                    }
                    r.push((parent[i].0.clone(), parent[i].1.clone()));
                    proof {
                        assert(r.deep_view() =~= old_dv.push((key@, pdv[i as int].1)));
                        assert(r.deep_view().drop_last() =~= old_dv);
                        assert(r.deep_view().last() == (key@, pdv[i as int].1));
                        assert forall|k: Seq<char>|
                            assoc_lookup(r.deep_view(), k) == inherited_lookup(
                                self@,
                                pdv.take(i + 1),
                                k,
                            ) by {
                            if k != key@ {
                                assert(assoc_lookup(r.deep_view(), k) == assoc_lookup(old_dv, k));
                            }
                        }
                    }
                } else {
                    proof {
                        assert forall|k: Seq<char>|
                            assoc_lookup(r.deep_view(), k) == inherited_lookup(
                                self@,
                                pdv.take(i + 1),
                                k,
                            ) by {
                            if k == key@ {
                                assert(inherited_lookup(self@, pdv.take(i + 1), k) is None);
                                assert(inherited_lookup(self@, pdv.take(i as int), k) is None);
                            }
                        }
                    }
                }
                i += 1;
            }
            proof {
                assert(pdv.take(parent.len() as int) =~= pdv);
            }
        } else {
            proof {
                assert forall|k: Seq<char>|
                    assoc_lookup(r.deep_view(), k) == inherited_lookup(self@, pdv, k) by {
                    assert(r.deep_view().len() == 0);
                }
            }
        }
        let mut j: usize = 0;
        while j < self.settings.len()
            invariant
                j <= self.settings.len(),
                pdv == parent.deep_view(),
                sdv == self.settings.deep_view(),
                sdv.len() == self.settings.len(),
                self@.wf(),
                assoc_keys_unique(r.deep_view()),
                forall|k: Seq<char>| assoc_lookup(r.deep_view(), k) == (match assoc_lookup(
                    sdv.take(j as int),
                    k,
                ) {
                    Some(v) => Some(v),
                    None => inherited_lookup(self@, pdv, k),
                }),
            decreases self.settings.len() - j,
        {
            let ghost old_dv = r.deep_view();
            proof {
                assert(sdv[j as int] == (self.settings@[j as int].0@, self.settings@[j as int].1@));
                assert(sdv.take(j + 1).drop_last() =~= sdv.take(j as int));
                assert(sdv.take(j + 1).last() == sdv[j as int]);
                let key = sdv[j as int].0;
                if assoc_lookup(old_dv, key) is Some {
                    if assoc_lookup(sdv.take(j as int), key) is Some {
                        lemma_assoc_lookup_none(sdv.take(j as int), key);
                        let m = choose|m: int|
                            0 <= m < j && #[trigger] sdv.take(j as int)[m].0 == key;
                        assert(sdv[m].0 == key && sdv[j as int].0 == key);
                        assert(false);
                    } else {
                        assert(inherited_lookup(self@, pdv, key) is Some);
                        lemma_assoc_lookup_at(sdv, key, j as int);
                        assert(false);
                    }
                }
                lemma_assoc_lookup_none(old_dv, key);
            }
            r.push((self.settings[j].0.clone(), self.settings[j].1.clone()));
            proof {
                assert(r.deep_view() =~= old_dv.push((sdv[j as int].0, sdv[j as int].1)));
                assert(r.deep_view().drop_last() =~= old_dv);
                assert(r.deep_view().last() == (sdv[j as int].0, sdv[j as int].1));
                assert forall|k: Seq<char>|
                    assoc_lookup(r.deep_view(), k) == (match assoc_lookup(sdv.take(j + 1), k) {
                        Some(v) => Some(v),
                        None => inherited_lookup(self@, pdv, k),
                    }) by {
                    if k != sdv[j as int].0 {
                        assert(assoc_lookup(r.deep_view(), k) == assoc_lookup(old_dv, k));
                    }
                }
            }
            j += 1;
        }
        proof {
            assert(sdv.take(self.settings.len() as int) =~= sdv);
        }
        r
    }
}

/// Arguments pass through the conversion unchanged: the child's
/// argument list is exactly the recorded sequence, in insertion order,
/// duplicates included.
pub proof fn lemma_arguments_pass_through(m: CommandModel)
    ensures
        spec_convert(m).args == m.arguments,
{
}

/// Soft removals exclude inherited variables: with inheritance on and
/// a soft removal recorded for `key`, the converted configuration
/// leaves the child without `key` even when the (simulated) parent
/// environment contains it.
pub proof fn lemma_soft_removal_excludes(
    m: CommandModel,
    parent: Seq<(Seq<char>, Seq<char>)>,
    key: Seq<char>,
)
    requires
        m.wf(),
        m.inherit_environment,
        env_lookup(m.environment, key) == Some(Option::<Seq<char>>::None),
    ensures
        config_child_lookup(spec_convert(m), parent, key) is None,
{
    lemma_convert_env_semantics(m, parent, key);
}

/// With inheritance off, the parent environment is irrelevant: the
/// child sees exactly the present-valued entries, and soft removals
/// have no effect.
pub proof fn lemma_no_inherit_ignores_parent(
    m: CommandModel,
    parent_a: Seq<(Seq<char>, Seq<char>)>,
    parent_b: Seq<(Seq<char>, Seq<char>)>,
    key: Seq<char>,
)
    requires
        m.wf(),
        !m.inherit_environment,
    ensures
        config_child_lookup(spec_convert(m), parent_a, key) == config_child_lookup(
            spec_convert(m),
            parent_b,
            key,
        ),
        config_child_lookup(spec_convert(m), parent_a, key) == (match env_lookup(
            m.environment,
            key,
        ) {
            Some(Some(v)) => Some(v),
            _ => None::<Seq<char>>,
        }),
{
    lemma_convert_env_semantics(m, parent_a, key);
    lemma_convert_env_semantics(m, parent_b, key);
}

/// A freshly constructed spec customizes nothing: its configuration
/// neither clears nor removes nor sets anything and overrides no
/// directory, the child environment equals the parent's, and under the
/// status-only entry point every stream inherits the caller's — the
/// same as handing the native launcher the bare program name.
pub proof fn lemma_fresh_spec_uncustomized(
    name: Seq<char>,
    parent: Seq<(Seq<char>, Seq<char>)>,
    key: Seq<char>,
)
    ensures
        spec_convert(CommandModel::fresh(name)) == (ConfigModel {
            program: name,
            args: Seq::empty(),
            clear_env: false,
            removals: Seq::empty(),
            settings: Seq::empty(),
            current_dir: None,
            stdin: None,
            stdout: None,
            stderr: None,
        }),
        config_child_lookup(spec_convert(CommandModel::fresh(name)), parent, key) == assoc_lookup(
            parent,
            key,
        ),
        spec_effective_dispositions(spec_convert(CommandModel::fresh(name)), LaunchKind::StatusOnly)
            == (Stdio::Inherit, Stdio::Inherit, Stdio::Inherit),
{
    let m = CommandModel::fresh(name);
    assert(removal_keys(m.environment) =~= Seq::<Seq<char>>::empty());
    assert(present_entries(m.environment) =~= Seq::<(Seq<char>, Seq<char>)>::empty());
}

} // verus!
