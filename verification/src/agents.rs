//! Which agent programs are installed. A node offers to run one of these; where one is
//! missing, the node says so instead of pretending to work.
//!
//! Looking at the file system and at the environment is left to the caller, who hands in
//! the directories of PATH and the check (is there a file at this path?).

use vstd::prelude::*;
use crate::paths::{join_path, joined};

verus! {

/// An agent program and whether it was found.
#[derive(Clone, Debug, PartialEq, Eq)]
pub struct AgentInfo {
    /// The program's file name, which is also the agent's id.
    pub id: String,
    /// The name shown to the user.
    pub name: String,
    /// Where the program was found, or empty.
    pub path: String,
    /// Whether the program was found.
    pub available: bool,
}

/// The agents that can be spawned, each as its program's file name and its display name.
/// Just codex for now: a row here grows the list.
pub open spec fn known_agents() -> Seq<(Seq<char>, Seq<char>)> {
    seq![("codex"@, "Codex"@)]
}

/// The agents that can be spawned, in the order of [`known_agents`].
pub fn known_agent_list() -> (agents: Vec<(String, String)>)
    ensures
        agents@.len() == known_agents().len(),
        forall|i: int|
            0 <= i < agents@.len() ==> (#[trigger] agents@[i]).0@ == known_agents()[i].0
                && agents@[i].1@ == known_agents()[i].1,
{
    let mut agents: Vec<(String, String)> = Vec::new();
    agents.push((String::from_str("codex"), String::from_str("Codex")));
    agents
}

/// Whether `check` may answer `answer` for a path that reads `path`.
pub open spec fn answers<F: Fn(&str) -> bool>(check: F, path: Seq<char>, answer: bool) -> bool {
    exists|p: &str| p@ == path && #[trigger] check.ensures((p,), answer)
}

/// What looking `bin` up in `dirs` may give: the first directory, joined with `bin`, for
/// which `is_file` answered yes after answering no for every directory before it; or
/// nothing, where it answered no for every directory.
pub open spec fn found_in<F: Fn(&str) -> bool>(
    is_file: F,
    dirs: Seq<String>,
    bin: Seq<char>,
    found: Option<String>,
) -> bool {
    match found {
        Some(path) => exists|i: int|
            0 <= i < dirs.len() && path@ == joined(dirs[i]@, bin) && answers(is_file, path@, true)
                && forall|j: int|
                0 <= j < i ==> answers(is_file, joined(#[trigger] dirs[j]@, bin), false),
        None => forall|j: int|
            0 <= j < dirs.len() ==> answers(is_file, joined(#[trigger] dirs[j]@, bin), false),
    }
}

/// The first of `dirs` that holds a file named `bin`, as the path of that file: each
/// directory in turn is joined with `bin` and handed to `is_file` until it answers yes.
/// Whether the file can be executed is not looked at: this tells installed from missing.
pub fn which<F: Fn(&str) -> bool>(bin: &str, dirs: &Vec<String>, is_file: &F) -> (found: Option<
    String,
>)
    requires
        forall|p: &str| #[trigger] is_file.requires((p,)),
    ensures
        found_in(*is_file, dirs@, bin@, found),
        found is None ==> forall|j: int|
            0 <= j < dirs@.len() ==> answers(*is_file, joined(#[trigger] dirs@[j]@, bin@), false),
        found is Some ==> exists|i: int|
            0 <= i < dirs@.len() && found->0@ == joined(dirs@[i]@, bin@) && answers(
                *is_file,
                found->0@,
                true,
            ) && forall|j: int|
                0 <= j < i ==> answers(*is_file, joined(#[trigger] dirs@[j]@, bin@), false),
{
    let n = dirs.len();
    let mut i: usize = 0;
    while i < n
        invariant
            n == dirs@.len(),
            i <= n,
            forall|p: &str| #[trigger] is_file.requires((p,)),
            forall|j: int|
                0 <= j < i ==> answers(*is_file, joined(#[trigger] dirs@[j]@, bin@), false),
        decreases n - i,
    {
        let candidate = join_path(dirs[i].as_str(), bin);
        let there = is_file(candidate.as_str());
        if there {
            assert(answers(*is_file, candidate@, true));
            return Some(candidate);
        }
        assert(answers(*is_file, candidate@, false));
        i += 1;
    }
    None
}

/// A path joined onto any base keeps at least its own length.
pub proof fn lemma_joined_len(base: Seq<char>, part: Seq<char>)
    ensures
        joined(base, part).len() >= part.len(),
{
}

/// Every known agent has a program name that is not empty, and no two share one.
pub proof fn lemma_known_agents()
    ensures
        forall|i: int| 0 <= i < known_agents().len() ==> #[trigger] known_agents()[i].0.len() > 0,
        forall|i: int, j: int|
            0 <= i < known_agents().len() && 0 <= j < known_agents().len() && i != j
                ==> #[trigger] known_agents()[i].0 != #[trigger] known_agents()[j].0,
{
    reveal_strlit("codex");
}

/// What the user is told of agent `agent` when looking it up answered `found`.
pub open spec fn agent_report(agent: (Seq<char>, Seq<char>), found: Option<String>, info: AgentInfo) -> bool {
    &&& info.id@ == agent.0
    &&& info.name@ == agent.1
    &&& info.available == found is Some
    &&& info.path@ == match found {
        Some(p) => p@,
        None => Seq::<char>::empty(),
    }
}

/// `info` tells of `agent` what looking its program up in `dirs` may give.
pub open spec fn reports<F: Fn(&str) -> bool>(
    is_file: F,
    dirs: Seq<String>,
    agent: (Seq<char>, Seq<char>),
    info: AgentInfo,
) -> bool {
    exists|found: Option<String>|
        found_in(is_file, dirs, agent.0, found) && #[trigger] agent_report(agent, found, info)
}

/// One report per known agent, in order, from looking its program up in `search_dirs`
/// (the directories of PATH) with [`which`]: its id and name; whether it was found, which
/// is exactly when its path is not empty; and the path, which is the first of the
/// directories, joined with the agent's id, whose file check said yes. No two reports
/// share an id.
pub fn detect<F: Fn(&str) -> bool>(search_dirs: &Vec<String>, is_file: &F) -> (agents: Vec<
    AgentInfo,
>)
    requires
        forall|p: &str| #[trigger] is_file.requires((p,)),
    ensures
        agents@.len() == known_agents().len(),
        forall|i: int|
            0 <= i < agents@.len() ==> reports(
                *is_file,
                search_dirs@,
                known_agents()[i],
                #[trigger] agents@[i],
            ),
        forall|i: int|
            0 <= i < agents@.len() ==> (#[trigger] agents@[i]).available == (agents@[i].path@.len()
                > 0),
        forall|i: int|
            0 <= i < agents@.len() ==> (#[trigger] agents@[i]).available ==> exists|k: int|
                0 <= k < search_dirs@.len() && agents@[i].path@ == joined(
                    search_dirs@[k]@,
                    agents@[i].id@,
                ) && answers(*is_file, agents@[i].path@, true) && forall|j: int|
                    0 <= j < k ==> answers(
                        *is_file,
                        joined(#[trigger] search_dirs@[j]@, agents@[i].id@),
                        false,
                    ),
        forall|i: int, j: int|
            0 <= i < agents@.len() && 0 <= j < agents@.len() && i != j ==> (#[trigger] agents@[i]).id@
                != (#[trigger] agents@[j]).id@,
        answers_alike(*is_file) ==> forall|i: int|
            0 <= i < agents@.len() ==> ((#[trigger] agents@[i]).available <==> exists|j: int|
                0 <= j < search_dirs@.len() && answers(
                    *is_file,
                    joined(#[trigger] search_dirs@[j]@, agents@[i].id@),
                    true,
                )),
{
    proof {
        lemma_known_agents();
    }
    let known = known_agent_list();
    let n = known.len();
    let mut agents: Vec<AgentInfo> = Vec::new();
    let mut i: usize = 0;
    while i < n
        invariant
            n == known@.len(),
            n == known_agents().len(),
            i <= n,
            agents@.len() == i,
            forall|k: int|
                0 <= k < known@.len() ==> (#[trigger] known@[k]).0@ == known_agents()[k].0
                    && known@[k].1@ == known_agents()[k].1,
            forall|k: int| 0 <= k < known_agents().len() ==> #[trigger] known_agents()[k].0.len() > 0,
            forall|p: &str| #[trigger] is_file.requires((p,)),
            forall|k: int|
                0 <= k < i ==> reports(
                    *is_file,
                    search_dirs@,
                    known_agents()[k],
                    #[trigger] agents@[k],
                ),
            forall|k: int|
                0 <= k < i ==> (#[trigger] agents@[k]).available == (agents@[k].path@.len() > 0),
        decreases n - i,
    {
        let bin = known[i].0.as_str();
        let found = which(bin, search_dirs, is_file);
        let ghost id = known_agents()[i as int].0;
        proof {
            if found is Some {
                let path = found->0;
                let k = choose|k: int|
                    0 <= k < search_dirs@.len() && path@ == joined(search_dirs@[k]@, id)
                        && answers(*is_file, path@, true) && forall|j: int|
                        0 <= j < k ==> answers(
                            *is_file,
                            joined(#[trigger] search_dirs@[j]@, id),
                            false,
                        );
                lemma_joined_len(search_dirs@[k]@, id);
            }
        }
        let info = match found {
            Some(p) => AgentInfo {
                id: known[i].0.clone(),
                name: known[i].1.clone(),
                path: p.clone(),
                available: true,
            },
            None => AgentInfo {
                id: known[i].0.clone(),
                name: known[i].1.clone(),
                path: String::new(),
                available: false,
            },
        };
        assert(agent_report(known_agents()[i as int], found, info));
        agents.push(info);
        assert forall|k: int| 0 <= k < i + 1 implies reports(
            *is_file,
            search_dirs@,
            known_agents()[k],
            #[trigger] agents@[k],
        ) by {
            if k == i {
                assert(agent_report(known_agents()[k], found, agents@[k]));
            }
        }
        i += 1;
    }
    assert forall|a: int|
        0 <= a < agents@.len() && (#[trigger] agents@[a]).available implies exists|k: int|
        0 <= k < search_dirs@.len() && agents@[a].path@ == joined(
            search_dirs@[k]@,
            agents@[a].id@,
        ) && answers(*is_file, agents@[a].path@, true) && forall|j: int|
            0 <= j < k ==> answers(
                *is_file,
                joined(#[trigger] search_dirs@[j]@, agents@[a].id@),
                false,
            ) by {
        assert(reports(*is_file, search_dirs@, known_agents()[a], agents@[a]));
        let found = choose|found: Option<String>|
            found_in(*is_file, search_dirs@, known_agents()[a].0, found) && #[trigger] agent_report(
                known_agents()[a],
                found,
                agents@[a],
            );
        assert(found is Some);
    }
    assert forall|i: int|
        answers_alike(*is_file) && 0 <= i < agents@.len() implies ((#[trigger] agents@[i]).available
        <==> exists|j: int|
        0 <= j < search_dirs@.len() && answers(
            *is_file,
            joined(#[trigger] search_dirs@[j]@, agents@[i].id@),
            true,
        )) by {
        law_detect_found(*is_file, search_dirs@, known_agents()[i], agents@[i]);
    }
    agents
}

/// `is_file` gives one answer for each path: the same text, the same answer.
pub open spec fn answers_alike<F: Fn(&str) -> bool>(is_file: F) -> bool {
    forall|p: &str, q: &str, a: bool, b: bool|
        p@ == q@ && #[trigger] is_file.ensures((p,), a) && #[trigger] is_file.ensures((q,), b)
            ==> a == b
}

/// Where the file check answers alike for the same path (PATH and the file system do not
/// change), looking a program up gives one result: two lookups agree.
pub proof fn law_lookup_agrees<F: Fn(&str) -> bool>(
    is_file: F,
    dirs: Seq<String>,
    bin: Seq<char>,
    first: Option<String>,
    second: Option<String>,
)
    requires
        answers_alike(is_file),
        found_in(is_file, dirs, bin, first),
        found_in(is_file, dirs, bin, second),
    ensures
        first is Some <==> second is Some,
        first is Some ==> first->0@ == second->0@,
{
    if first is Some {
        let i = choose|i: int|
            0 <= i < dirs.len() && first->0@ == joined(dirs[i]@, bin) && answers(
                is_file,
                first->0@,
                true,
            ) && forall|j: int|
                0 <= j < i ==> answers(is_file, joined(#[trigger] dirs[j]@, bin), false);
        if second is Some {
            let k = choose|k: int|
                0 <= k < dirs.len() && second->0@ == joined(dirs[k]@, bin) && answers(
                    is_file,
                    second->0@,
                    true,
                ) && forall|j: int|
                    0 <= j < k ==> answers(is_file, joined(#[trigger] dirs[j]@, bin), false);
            if i < k {
                assert(answers(is_file, joined(dirs[i]@, bin), false));
            } else if k < i {
                assert(answers(is_file, joined(dirs[k]@, bin), false));
            }
        } else {
            assert(answers(is_file, joined(dirs[i]@, bin), false));
        }
    } else if second is Some {
        let k = choose|k: int|
            0 <= k < dirs.len() && second->0@ == joined(dirs[k]@, bin) && answers(
                is_file,
                second->0@,
                true,
            ) && forall|j: int|
                0 <= j < k ==> answers(is_file, joined(#[trigger] dirs[j]@, bin), false);
        assert(answers(is_file, joined(dirs[k]@, bin), false));
    }
}

/// Where the file check answers alike for the same path, two runs of [`detect`] over the
/// same directories give the same reports.
pub proof fn law_detect_agrees<F: Fn(&str) -> bool>(
    is_file: F,
    dirs: Seq<String>,
    agent: (Seq<char>, Seq<char>),
    first: AgentInfo,
    second: AgentInfo,
)
    requires
        answers_alike(is_file),
        reports(is_file, dirs, agent, first),
        reports(is_file, dirs, agent, second),
    ensures
        first.id@ == second.id@,
        first.name@ == second.name@,
        first.path@ == second.path@,
        first.available == second.available,
{
    let f1 = choose|found: Option<String>|
        found_in(is_file, dirs, agent.0, found) && #[trigger] agent_report(agent, found, first);
    let f2 = choose|found: Option<String>|
        found_in(is_file, dirs, agent.0, found) && #[trigger] agent_report(agent, found, second);
    law_lookup_agrees(is_file, dirs, agent.0, f1, f2);
}

/// What a lookup finds, where the file check answers alike for the same path, for any
/// number of directories and any directory names: nothing exactly when the check says no
/// for every directory joined with the program's name; so where it says yes for any one,
/// the program is found, and what is found is the first directory, joined with the name,
/// for which it says yes.
pub proof fn law_which_found<F: Fn(&str) -> bool>(
    is_file: F,
    dirs: Seq<String>,
    bin: Seq<char>,
    found: Option<String>,
)
    requires
        answers_alike(is_file),
        found_in(is_file, dirs, bin, found),
    ensures
        found is None <==> forall|j: int|
            0 <= j < dirs.len() ==> !answers(is_file, joined(#[trigger] dirs[j]@, bin), true),
        (exists|j: int| 0 <= j < dirs.len() && answers(is_file, joined(#[trigger] dirs[j]@, bin), true))
            ==> found is Some,
        found is Some ==> exists|i: int|
            0 <= i < dirs.len() && found->0@ == joined(dirs[i]@, bin) && answers(
                is_file,
                joined(dirs[i]@, bin),
                true,
            ) && forall|j: int|
                0 <= j < i ==> !answers(is_file, joined(#[trigger] dirs[j]@, bin), true),
{
    if found is None {
        assert forall|j: int|
            0 <= j < dirs.len() implies !answers(is_file, joined(#[trigger] dirs[j]@, bin), true) by {
            lemma_answers_once(is_file, joined(dirs[j]@, bin));
        }
    } else {
        let i = choose|i: int|
            0 <= i < dirs.len() && found->0@ == joined(dirs[i]@, bin) && answers(
                is_file,
                found->0@,
                true,
            ) && forall|j: int|
                0 <= j < i ==> answers(is_file, joined(#[trigger] dirs[j]@, bin), false);
        assert forall|j: int| 0 <= j < i implies !answers(is_file, joined(#[trigger] dirs[j]@, bin), true) by {
            lemma_answers_once(is_file, joined(dirs[j]@, bin));
        }
        assert(answers(is_file, joined(dirs[i]@, bin), true));
    }
}

/// A check that answers alike cannot answer both yes and no for one path.
proof fn lemma_answers_once<F: Fn(&str) -> bool>(is_file: F, path: Seq<char>)
    requires
        answers_alike(is_file),
    ensures
        !(answers(is_file, path, true) && answers(is_file, path, false)),
{
    if answers(is_file, path, true) && answers(is_file, path, false) {
        let p = choose|p: &str| p@ == path && #[trigger] is_file.ensures((p,), true);
        let q = choose|q: &str| q@ == path && #[trigger] is_file.ensures((q,), false);
        assert(is_file.ensures((p,), true) && is_file.ensures((q,), false));
    }
}

/// What is reported of an agent, where the file check answers alike for the same path: it
/// is available exactly when the check says yes for some directory joined with its id,
/// whatever the directories are called and however many there are; its path is then the
/// first such one, and otherwise empty.
pub proof fn law_detect_found<F: Fn(&str) -> bool>(
    is_file: F,
    dirs: Seq<String>,
    agent: (Seq<char>, Seq<char>),
    info: AgentInfo,
)
    requires
        answers_alike(is_file),
        reports(is_file, dirs, agent, info),
    ensures
        info.id@ == agent.0,
        info.available <==> exists|j: int|
            0 <= j < dirs.len() && answers(is_file, joined(#[trigger] dirs[j]@, agent.0), true),
        info.available ==> exists|i: int|
            0 <= i < dirs.len() && info.path@ == joined(dirs[i]@, agent.0) && answers(
                is_file,
                joined(dirs[i]@, agent.0),
                true,
            ) && forall|j: int|
                0 <= j < i ==> !answers(is_file, joined(#[trigger] dirs[j]@, agent.0), true),
        !info.available ==> info.path@.len() == 0,
{
    let found = choose|found: Option<String>|
        found_in(is_file, dirs, agent.0, found) && #[trigger] agent_report(agent, found, info);
    law_which_found(is_file, dirs, agent.0, found);
}

} // verus!
