//! Which policy classes of a router policy profile get the built-in
//! session-aware admission control, without replacing policies the caller
//! already provided.

use vstd::prelude::*;
use crate::text::{str_equal, views};

verus! {

/// The admission policy type of session-aware admission control.
pub const POLICY_NAME: &'static str = "session_aware";

/// A policy class's admission section: its policy type, and for the
/// session-aware type whether its options parsed into a valid configuration.
#[derive(Clone, Debug)]
pub struct AdmissionInfo {
    pub policy_type: String,
    /// The configuration error of the options, if any.
    pub config_error: Option<String>,
}

/// What registration needs to know of one policy class of a resolved
/// profile. `explicit` holds when the class is selected by name directly;
/// `stable_family` when its family resolves to it for every token count.
#[derive(Clone, Debug)]
pub struct ClassInfo {
    pub name: String,
    pub admission: Option<AdmissionInfo>,
    /// The class queues first-come first-served.
    pub fcfs: bool,
    pub explicit: bool,
    pub stable_family: bool,
}

/// Why the built-in policies cannot be registered.
#[derive(Clone, Debug)]
pub enum RegistrationError {
    /// Session-aware admission control needs a FCFS class.
    RequiresFcfs(String),
    /// It needs an explicit class or a family with exactly one cache bucket.
    RequiresStableClass(String),
    /// It may be configured for only one class.
    MultipleClasses { first: String, second: String },
    /// An admission type with no implementation, for a class the caller did
    /// not provide a policy for.
    UnknownPolicyType { class_name: String, policy_type: String },
    /// The session-aware options are invalid.
    Config(String),
}

/// A registration fault as plain values.
pub enum RegFault {
    RequiresFcfs(Seq<char>),
    RequiresStableClass(Seq<char>),
    MultipleClasses(Seq<char>, Seq<char>),
    UnknownPolicyType(Seq<char>, Seq<char>),
    Config(Seq<char>),
}

pub open spec fn reg_fault(e: RegistrationError) -> RegFault {
    match e {
        RegistrationError::RequiresFcfs(n) => RegFault::RequiresFcfs(n@),
        RegistrationError::RequiresStableClass(n) => RegFault::RequiresStableClass(n@),
        RegistrationError::MultipleClasses { first, second } => RegFault::MultipleClasses(first@, second@),
        RegistrationError::UnknownPolicyType { class_name, policy_type } => RegFault::UnknownPolicyType(
            class_name@,
            policy_type@,
        ),
        RegistrationError::Config(m) => RegFault::Config(m@),
    }
}

pub open spec fn policy_name() -> Seq<char> {
    seq!['s', 'e', 's', 's', 'i', 'o', 'n', '_', 'a', 'w', 'a', 'r', 'e']
}

/// The names of the classes at positions `built`.
pub open spec fn built_names(classes: Seq<ClassInfo>, built: Seq<usize>) -> Seq<Seq<char>> {
    built.map_values(|i: usize| classes[i as int].name@)
}

/// Registration over the first `n` classes: the session-aware class seen so
/// far and the positions of the classes to build it for, or the first fault.
/// A policy registered before (by the caller, or built here) is kept.
pub open spec fn plan_upto(classes: Seq<ClassInfo>, registered: Seq<Seq<char>>, n: int) -> Result<
    (Option<Seq<char>>, Seq<usize>),
    RegFault,
>
    decreases n,
{
    if n <= 0 {
        Ok((None, Seq::empty()))
    } else {
        match plan_upto(classes, registered, n - 1) {
            Err(f) => Err(f),
            Ok((session_class, built)) => {
                let c = classes[n - 1];
                let name = c.name@;
                let known = registered.contains(name) || built_names(classes, built).contains(name);
                match c.admission {
                    None => Ok((session_class, built)),
                    Some(a) => if a.policy_type@ != policy_name() {
                        if known {
                            Ok((session_class, built))
                        } else {
                            Err(RegFault::UnknownPolicyType(name, a.policy_type@))
                        }
                    } else if !c.fcfs {
                        Err(RegFault::RequiresFcfs(name))
                    } else if !c.explicit && !c.stable_family {
                        Err(RegFault::RequiresStableClass(name))
                    } else if session_class is Some {
                        Err(RegFault::MultipleClasses(session_class->0, name))
                    } else if a.config_error is Some {
                        Err(RegFault::Config(a.config_error->0@))
                    } else if known {
                        Ok((Some(name), built))
                    } else {
                        Ok((Some(name), built.push((n - 1) as usize)))
                    },
                }
            },
        }
    }
}

fn name_known(classes: &[ClassInfo], registered: &[String], built: &Vec<usize>, name: &String) -> (r: bool)
    requires
        forall|k: int| 0 <= k < built@.len() ==> built@[k] < classes@.len(),
    ensures
        r == (views(registered@).contains(name@) || built_names(classes@, built@).contains(name@)),
{
    let mut i: usize = 0;
    while i < registered.len()
        invariant
            i <= registered@.len(),
            forall|j: int| 0 <= j < i ==> registered@[j]@ != name@,
        decreases registered@.len() - i,
    {
        if str_equal(registered[i].as_str(), name.as_str()) {
            assert(views(registered@)[i as int] == name@);
            return (true);
        }
        i = i + 1;
    }
    assert forall|j: int| 0 <= j < views(registered@).len() implies views(registered@)[j] != name@ by {
        assert(views(registered@)[j] == registered@[j]@);
    }
    let mut k: usize = 0;
    while k < built.len()
        invariant
            k <= built@.len(),
            forall|t: int| 0 <= t < built@.len() ==> built@[t] < classes@.len(),
            forall|j: int| 0 <= j < k ==> classes@[built@[j] as int].name@ != name@,
            !views(registered@).contains(name@),
        decreases built@.len() - k,
    {
        if str_equal(classes[built[k]].name.as_str(), name.as_str()) {
            assert(built_names(classes@, built@)[k as int] == name@);
            return true;
        }
        k = k + 1;
    }
    assert forall|j: int| 0 <= j < built_names(classes@, built@).len() implies built_names(classes@, built@)[j] != name@ by {
        assert(built_names(classes@, built@)[j] == classes@[built@[j] as int].name@);
    }
    false
}

/// Decides which classes get session-aware admission control, in class
/// order. `registered` are the classes the caller already provided policies
/// for. Returns the positions of the classes to build it for.
pub fn plan_builtin_policies(classes: &[ClassInfo], registered: &[String]) -> (r: Result<Vec<usize>, RegistrationError>)
    ensures
        match r {
            Ok(built) => plan_upto(classes@, views(registered@), classes@.len() as int) matches Ok((_, b)) && b
                == built@,
            Err(e) => plan_upto(classes@, views(registered@), classes@.len() as int) == Err::<
                (Option<Seq<char>>, Seq<usize>),
                RegFault,
            >(reg_fault(e)),
        },
{
    let mut session_class: Option<String> = None;
    let mut built: Vec<usize> = Vec::new();
    let mut i: usize = 0;
    while i < classes.len()
        invariant
            i <= classes@.len(),
            forall|k: int| 0 <= k < built@.len() ==> built@[k] < i,
            plan_upto(classes@, views(registered@), i as int) matches Ok((sc, b)) && b == built@ && sc == match session_class {
                Some(s) => Some(s@),
                None => None,
            },
        decreases classes@.len() - i,
    {
        let c = &classes[i];
        let known = name_known(classes, registered, &built, &c.name);
        match &c.admission {
            None => {},
            Some(a) => {
                proof {
                    reveal_strlit("session_aware");
                    assert("session_aware"@ =~= policy_name());
                }
                if !str_equal(a.policy_type.as_str(), POLICY_NAME) {
                    if !known {
                        proof {
                            lemma_plan_fails_on(classes@, views(registered@), i + 1, classes@.len() as int);
                        }
                        return Err(
                            RegistrationError::UnknownPolicyType {
                                class_name: c.name.clone(),
                                policy_type: a.policy_type.clone(),
                            },
                        );
                    }
                } else {
                    if !c.fcfs {
                        proof {
                            lemma_plan_fails_on(classes@, views(registered@), i + 1, classes@.len() as int);
                        }
                        return Err(RegistrationError::RequiresFcfs(c.name.clone()));
                    }
                    if !c.explicit && !c.stable_family {
                        proof {
                            lemma_plan_fails_on(classes@, views(registered@), i + 1, classes@.len() as int);
                        }
                        return Err(RegistrationError::RequiresStableClass(c.name.clone()));
                    }
                    match &session_class {
                        Some(first) => {
                            proof {
                                lemma_plan_fails_on(classes@, views(registered@), i + 1, classes@.len() as int);
                            }
                            return Err(
                                RegistrationError::MultipleClasses { first: first.clone(), second: c.name.clone() },
                            );
                        },
                        None => {},
                    }
                    match &a.config_error {
                        Some(m) => {
                            proof {
                                lemma_plan_fails_on(classes@, views(registered@), i + 1, classes@.len() as int);
                            }
                            return Err(RegistrationError::Config(m.clone()));
                        },
                        None => {},
                    }
                    session_class = Some(c.name.clone());
                    if !known {
                        built.push(i);
                    }
                }
            },
        }
        i = i + 1;
    }
    Ok(built)
}

proof fn lemma_plan_fails_on(classes: Seq<ClassInfo>, registered: Seq<Seq<char>>, i: int, n: int)
    requires
        1 <= i <= n,
        plan_upto(classes, registered, i) is Err,
    ensures
        plan_upto(classes, registered, n) == plan_upto(classes, registered, i),
    decreases n - i,
{
    if i < n {
        lemma_plan_fails_on(classes, registered, i, n - 1);
    }
}

/// Class `c` asks for session-aware admission control.
pub open spec fn asks_session_aware(c: ClassInfo) -> bool {
    c.admission matches Some(a) && a.policy_type@ == policy_name()
}

proof fn lemma_plan_one_session_class(classes: Seq<ClassInfo>, registered: Seq<Seq<char>>, n: int)
    requires
        0 <= n <= classes.len(),
        classes.len() <= usize::MAX,
        plan_upto(classes, registered, n) is Ok,
    ensures
        forall|i: int, j: int|
            0 <= i < j < n ==> !(asks_session_aware(#[trigger] classes[i]) && asks_session_aware(#[trigger] classes[j])),
        (plan_upto(classes, registered, n)->Ok_0).0 is None ==> forall|i: int|
            0 <= i < n ==> !asks_session_aware(#[trigger] classes[i]),
        forall|k: int|
            0 <= k < (plan_upto(classes, registered, n)->Ok_0).1.len() ==> {
                let b = #[trigger] (plan_upto(classes, registered, n)->Ok_0).1[k];
                0 <= b < n && asks_session_aware(classes[b as int])
            },
    decreases n,
{
    if n > 0 {
        lemma_plan_one_session_class(classes, registered, n - 1);
        let prev = (plan_upto(classes, registered, n - 1)->Ok_0).1;
        let cur = (plan_upto(classes, registered, n)->Ok_0).1;
        assert(cur == prev || cur == prev.push((n - 1) as usize));
        assert forall|k: int| 0 <= k < cur.len() implies {
            let b = #[trigger] cur[k];
            0 <= b < n && asks_session_aware(classes[b as int])
        } by {
            if k < prev.len() {
                assert(cur[k] == prev[k]);
            }
        }
    }
}

/// Session-aware admission control serves at most one class: a successful
/// registration never has two classes asking for it, so whenever two classes
/// ask for it (and pass the checks that come before) registration fails,
/// whatever the caller already provided. Each class it is built for asks for
/// it, and none is built twice.
pub proof fn law_at_most_one_session_aware_class(classes: Seq<ClassInfo>, registered: Seq<Seq<char>>)
    requires
        classes.len() <= usize::MAX,
    ensures
        plan_upto(classes, registered, classes.len() as int) is Ok ==> {
            &&& forall|i: int, j: int|
                0 <= i < j < classes.len() ==> !(asks_session_aware(#[trigger] classes[i]) && asks_session_aware(
                    #[trigger] classes[j],
                ))
            &&& (plan_upto(classes, registered, classes.len() as int)->Ok_0).1.len() <= 1
            &&& forall|k: int|
                0 <= k < (plan_upto(classes, registered, classes.len() as int)->Ok_0).1.len() ==> asks_session_aware(
                    classes[(#[trigger] (plan_upto(classes, registered, classes.len() as int)->Ok_0).1[k]) as int],
                )
        },
{
    let n = classes.len() as int;
    if plan_upto(classes, registered, n) is Ok {
        lemma_plan_one_session_class(classes, registered, n);
        let b = (plan_upto(classes, registered, n)->Ok_0).1;
        if b.len() > 1 {
            let x = b[0];
            let y = b[1];
            assert(asks_session_aware(classes[x as int]));
            assert(asks_session_aware(classes[y as int]));
            lemma_built_increasing(classes, registered, n);
            assert(x < y);
        }
    }
}

proof fn lemma_built_increasing(classes: Seq<ClassInfo>, registered: Seq<Seq<char>>, n: int)
    requires
        0 <= n <= classes.len(),
        classes.len() <= usize::MAX,
        plan_upto(classes, registered, n) is Ok,
    ensures
        forall|a: int, c: int|
            0 <= a < c < (plan_upto(classes, registered, n)->Ok_0).1.len() ==> (#[trigger] (plan_upto(
                classes,
                registered,
                n,
            )->Ok_0).1[a]) < (#[trigger] (plan_upto(classes, registered, n)->Ok_0).1[c]),
        forall|k: int|
            0 <= k < (plan_upto(classes, registered, n)->Ok_0).1.len() ==> (#[trigger] (plan_upto(
                classes,
                registered,
                n,
            )->Ok_0).1[k]) < n,
    decreases n,
{
    if n > 0 {
        lemma_built_increasing(classes, registered, n - 1);
        let prev = (plan_upto(classes, registered, n - 1)->Ok_0).1;
        let cur = (plan_upto(classes, registered, n)->Ok_0).1;
        assert(cur == prev || cur == prev.push((n - 1) as usize));
        assert forall|k: int| 0 <= k < cur.len() implies #[trigger] cur[k] < n by {
            if k < prev.len() {
                assert(cur[k] == prev[k]);
            }
        }
        assert forall|a: int, c: int| 0 <= a < c < cur.len() implies #[trigger] cur[a] < #[trigger] cur[c] by {
            assert(cur[a] == prev[a]);
            if c < prev.len() {
                assert(cur[c] == prev[c]);
            }
        }
    }
}

proof fn lemma_plan_builds_unprovided(classes: Seq<ClassInfo>, registered: Seq<Seq<char>>, n: int)
    requires
        0 <= n <= classes.len(),
        classes.len() <= usize::MAX,
        plan_upto(classes, registered, n) is Ok,
    ensures
        forall|i: int|
            0 <= i < n && asks_session_aware(#[trigger] classes[i]) ==> ((plan_upto(classes, registered, n)->Ok_0).1.contains(
                i as usize,
            ) <==> !registered.contains(classes[i].name@)),
    decreases n,
{
    if n > 0 {
        lemma_plan_builds_unprovided(classes, registered, n - 1);
        lemma_plan_one_session_class(classes, registered, n - 1);
        lemma_plan_one_session_class(classes, registered, n);
        let prev = plan_upto(classes, registered, n - 1)->Ok_0;
        let cur = (plan_upto(classes, registered, n)->Ok_0).1;
        let c = classes[n - 1];
        if asks_session_aware(c) {
            assert(prev.0 is None);
            assert(prev.1.len() == 0) by {
                if prev.1.len() > 0 {
                    let b = prev.1[0];
                    assert(asks_session_aware(classes[b as int]));
                }
            }
            assert(built_names(classes, prev.1) =~= Seq::<Seq<char>>::empty());
            assert forall|i: int| 0 <= i < n - 1 implies !asks_session_aware(#[trigger] classes[i]) by {}
            if registered.contains(c.name@) {
                assert(cur == prev.1);
            } else {
                assert(cur == prev.1.push((n - 1) as usize));
                assert(cur[0] == (n - 1) as usize);
            }
        } else {
            assert(cur == prev.1);
            assert forall|i: int| 0 <= i < n && asks_session_aware(#[trigger] classes[i]) implies (cur.contains(
                i as usize,
            ) <==> !registered.contains(classes[i].name@)) by {
                assert(i < n - 1);
            }
        }
    }
}

/// Registration builds session-aware admission control for the class that
/// asks for it exactly when the caller has not already provided a policy for
/// that class.
pub proof fn law_session_aware_class_built_unless_provided(
    classes: Seq<ClassInfo>,
    registered: Seq<Seq<char>>,
    i: int,
)
    requires
        classes.len() <= usize::MAX,
        0 <= i < classes.len(),
        asks_session_aware(classes[i]),
    ensures
        plan_upto(classes, registered, classes.len() as int) is Ok ==> ((plan_upto(
            classes,
            registered,
            classes.len() as int,
        )->Ok_0).1.contains(i as usize) <==> !registered.contains(classes[i].name@)),
{
    if plan_upto(classes, registered, classes.len() as int) is Ok {
        lemma_plan_builds_unprovided(classes, registered, classes.len() as int);
    }
}

proof fn lemma_multiple_names(classes: Seq<ClassInfo>, registered: Seq<Seq<char>>, n: int)
    requires
        0 <= n <= classes.len(),
    ensures
        plan_upto(classes, registered, n) matches Ok((Some(name), _)) ==> exists|i: int|
            0 <= i < n && asks_session_aware(#[trigger] classes[i]) && classes[i].name@ == name,
        plan_upto(classes, registered, n) matches Err(RegFault::MultipleClasses(a, b)) ==> exists|i: int, j: int|
            0 <= i < j < n && asks_session_aware(#[trigger] classes[i]) && asks_session_aware(#[trigger] classes[j])
                && classes[i].name@ == a && classes[j].name@ == b,
    decreases n,
{
    if n > 0 {
        lemma_multiple_names(classes, registered, n - 1);
        if let Ok((Some(name), _)) = plan_upto(classes, registered, n - 1) {
            let i = choose|i: int| 0 <= i < n - 1 && asks_session_aware(#[trigger] classes[i]) && classes[i].name@ == name;
            if plan_upto(classes, registered, n) matches Err(RegFault::MultipleClasses(a, b)) {
                assert(asks_session_aware(classes[n - 1]));
                assert(asks_session_aware(classes[i]) && asks_session_aware(classes[n - 1]));
            }
        }
    }
}

/// A refusal for several session-aware classes names two distinct classes
/// that both ask for session-aware admission control, the first one first.
pub proof fn law_multiple_classes_names_two_asking_classes(classes: Seq<ClassInfo>, registered: Seq<Seq<char>>)
    ensures
        plan_upto(classes, registered, classes.len() as int) matches Err(RegFault::MultipleClasses(a, b))
            ==> exists|i: int, j: int|
            0 <= i < j < classes.len() && asks_session_aware(#[trigger] classes[i]) && asks_session_aware(
                #[trigger] classes[j],
            ) && classes[i].name@ == a && classes[j].name@ == b,
{
    lemma_multiple_names(classes, registered, classes.len() as int);
}

} // verus!
