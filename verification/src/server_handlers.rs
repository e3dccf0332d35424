//! The decisions behind the service endpoints: authorize the caller,
//! resolve the project, confine requested sub-paths to the project
//! root, and assemble the response from what discovery and aggregation
//! produced. The filesystem and HTTP plumbing around these decisions
//! is the embedding program's concern.

use vstd::prelude::*;
use crate::config::{config_wf, lookup, Config};
use crate::contexter::{spec_gather, WalkEntry};
use crate::document::{concatenate_files, spec_document, FileInput};
use crate::filter::{all_patterns, all_valid, string_views};
use crate::server::{
    ContexterRequest, ProjectContentResponse, ProjectFilesResponse, ProjectListResponse,
    ProjectMetadata, ProjectSummary, ServiceError,
};
use crate::strings::{s_len, str_eq};
use crate::utils::{authorized, validate_api_key};

verus! {

/// A `..` path segment starts at position `i`.
pub open spec fn dotdot_at(p: Seq<char>, i: int) -> bool {
    &&& 0 <= i
    &&& i + 2 <= p.len()
    &&& p[i] == '.'
    &&& p[i + 1] == '.'
    &&& (i == 0 || p[i - 1] == '/')
    &&& (i + 2 == p.len() || p[i + 2] == '/')
}

/// Some `..` segment occurs in the path.
pub open spec fn has_dotdot_segment(p: Seq<char>) -> bool {
    exists|i: int| #[trigger] dotdot_at(p, i)
}

/// A sub-path that stays confined to the root it is resolved against:
/// not absolute, and free of `..` segments.
pub open spec fn sub_path_safe(p: Seq<char>) -> bool {
    !(p.len() > 0 && p[0] == '/') && !has_dotdot_segment(p)
}

/// Every requested sub-path is confined.
pub open spec fn request_paths_safe(req: ContexterRequest) -> bool {
    req.paths is Some ==> forall|i: int|
        0 <= i < req.paths->0@.len() ==> sub_path_safe((#[trigger] req.paths->0@[i])@)
}

fn has_dotdot(p: &str) -> (r: bool)
    ensures
        r == has_dotdot_segment(p@),
{
    let n = s_len(p);
    if n < 2 {
        proof {
            if has_dotdot_segment(p@) {
                let k = choose|k: int| dotdot_at(p@, k);
            }
        }
        return false;
    }
    let mut i: usize = 0;
    while i <= n - 2
        invariant
            n == p@.len(),
            2 <= n,
            i <= n - 1,
            forall|k: int| 0 <= k < i ==> !#[trigger] dotdot_at(p@, k),
        decreases n - i,
    {
        if p.get_char(i) == '.' && p.get_char(i + 1) == '.' && (i == 0 || p.get_char(i - 1) == '/')
            && (i + 2 == n || p.get_char(i + 2) == '/') {
            proof {
                assert(dotdot_at(p@, i as int));
            }
            return true;
        }
        i = i + 1;
    }
    proof {
        if has_dotdot_segment(p@) {
            let k = choose|k: int| dotdot_at(p@, k);
            assert(!dotdot_at(p@, k));
        }
    }
    false
}

fn sub_path_safe_exec(p: &str) -> (r: bool)
    ensures
        r == sub_path_safe(p@),
{
    if s_len(p) > 0 && p.get_char(0) == '/' {
        return false;
    }
    !has_dotdot(p)
}

/// A sub-path resolved against the project root.
pub open spec fn joined_path(root: Seq<char>, rel: Seq<char>) -> Seq<char> {
    root + seq!['/'] + rel
}

fn join_path(root: &str, rel: &str) -> (r: String)
    ensures
        r@ == joined_path(root@, rel@),
{
    let mut r = String::from_str(root);
    crate::strings::push_char(&mut r, '/');
    r.append(rel);
    proof {
        assert(r@ =~= joined_path(root@, rel@));
    }
    r
}

/// `p` with the project root (and one following separator) removed,
/// when it lies under that root; otherwise `p` itself.
pub open spec fn strip_prefix_of(root: Seq<char>, p: Seq<char>) -> Seq<char> {
    if p.len() >= root.len() && p.subrange(0, root.len() as int) == root {
        if p.len() > root.len() && p[root.len() as int] == '/' {
            p.skip(root.len() as int + 1)
        } else {
            p.skip(root.len() as int)
        }
    } else {
        p
    }
}

fn strip_prefix(root: &str, p: &str) -> (r: String)
    ensures
        r@ == strip_prefix_of(root@, p@),
{
    let rl = s_len(root);
    let pl = s_len(p);
    if pl >= rl && str_eq(p.substring_char(0, rl), root) {
        if pl > rl && p.get_char(rl) == '/' {
            let r = String::from_str(p.substring_char(rl + 1, pl));
            proof {
                assert(p@.skip(rl + 1) =~= p@.subrange(rl + 1, pl as int));
            }
            r
        } else {
            let r = String::from_str(p.substring_char(rl, pl));
            proof {
                assert(p@.skip(rl as int) =~= p@.subrange(rl as int, pl as int));
            }
            r
        }
    } else {
        String::from_str(p)
    }
}

/// Lists every registered project to an authorized caller; any other
/// caller learns nothing.
pub fn list_projects(config: &Config, api_key: &str) -> (r: Result<
    ProjectListResponse,
    ServiceError,
>)
    ensures
        match r {
            Err(e) => e == ServiceError::Unauthorized && !authorized(*config, api_key@),
            Ok(resp) => authorized(*config, api_key@) && resp.projects@.len()
                == config.projects@.len() && forall|i: int|
                0 <= i < resp.projects@.len() ==> (#[trigger] resp.projects@[i]).name
                    == config.projects@[i].name && resp.projects@[i].path
                    == config.projects@[i].value,
        },
{
    if !validate_api_key(config, api_key) {
        return Err(ServiceError::Unauthorized);
    }
    let mut projects: Vec<ProjectSummary> = Vec::new();
    let mut i: usize = 0;
    while i < config.projects.len()
        invariant
            i <= config.projects@.len(),
            projects@.len() == i,
            forall|k: int|
                0 <= k < i ==> (#[trigger] projects@[k]).name == config.projects@[k].name
                    && projects@[k].path == config.projects@[k].value,
        decreases config.projects@.len() - i,
    {
        projects.push(
            ProjectSummary {
                name: config.projects[i].name.clone(),
                path: config.projects[i].value.clone(),
            },
        );
        i = i + 1;
    }
    Ok(ProjectListResponse { projects })
}

/// Resolves a project for an authorized caller: its root path when the
/// name is registered, and which refusal otherwise.
pub fn resolve_project(config: &Config, api_key: &str, project_name: &str) -> (r: Result<
    String,
    ServiceError,
>)
    requires
        config_wf(*config),
    ensures
        match r {
            Err(e) => (e == ServiceError::Unauthorized && !authorized(*config, api_key@)) || (e
                == ServiceError::NotFound && authorized(*config, api_key@) && lookup(
                config.projects@,
                project_name@,
            ) is None),
            Ok(root) => authorized(*config, api_key@) && lookup(config.projects@, project_name@)
                == Some(root@),
        },
{
    if !validate_api_key(config, api_key) {
        return Err(ServiceError::Unauthorized);
    }
    match crate::config::find_project(config, project_name) {
        Some(root) => Ok(root),
        None => Err(ServiceError::NotFound),
    }
}

/// Answers a metadata request from what discovery saw under the
/// project root: the project's name, its root, and the eligible files
/// relative to that root. Authorization is decided before the project
/// name is even looked at.
pub fn get_project_metadata(
    config: &Config,
    api_key: &str,
    project_name: &str,
    entries: Vec<WalkEntry>,
) -> (r: Result<ProjectMetadata, ServiceError>)
    requires
        config_wf(*config),
    ensures
        match r {
            Err(e) => (e == ServiceError::Unauthorized && !authorized(*config, api_key@)) || (e
                == ServiceError::NotFound && authorized(*config, api_key@) && lookup(
                config.projects@,
                project_name@,
            ) is None) || (e == ServiceError::Internal && authorized(*config, api_key@) && lookup(
                config.projects@,
                project_name@,
            ) is Some && !all_valid(all_patterns(Seq::<Seq<char>>::empty()))),
            Ok(m) => {
                let root = lookup(config.projects@, project_name@)->0;
                let found = spec_gather(entries@, Seq::empty(), Seq::empty());
                &&& authorized(*config, api_key@)
                &&& lookup(config.projects@, project_name@) is Some
                &&& m.name@ == project_name@
                &&& m.path@ == root
                &&& m.files@.len() == found.len()
                &&& forall|i: int|
                    0 <= i < found.len() ==> (#[trigger] m.files@[i])@ == strip_prefix_of(
                        root,
                        found[i]@,
                    )
            },
        },
{
    let root = match resolve_project(config, api_key, project_name) {
        Ok(root) => root,
        Err(e) => {
            return Err(e);
        },
    };
    proof {
        assert(string_views(Seq::<String>::empty()) =~= Seq::<Seq<char>>::empty());
    }
    let paths = match crate::contexter::gather_relevant_files(entries, Vec::new(), Vec::new()) {
        Ok(paths) => paths,
        Err(_) => {
            return Err(ServiceError::Internal);
        },
    };
    let mut files: Vec<String> = Vec::new();
    let mut i: usize = 0;
    while i < paths.len()
        invariant
            i <= paths@.len(),
            files@.len() == i,
            forall|k: int|
                0 <= k < i ==> (#[trigger] files@[k])@ == strip_prefix_of(root@, paths@[k]@),
        decreases paths@.len() - i,
    {
        files.push(strip_prefix(root.as_str(), paths[i].as_str()));
        i = i + 1;
    }
    Ok(
        ProjectMetadata {
            name: String::from_str(project_name),
            path: root,
            files,
        },
    )
}

/// Answers a file-listing request: the eligible files under the
/// project root, relative to it, for an authorized caller.
pub fn list_project_files(
    config: &Config,
    api_key: &str,
    project_name: &str,
    entries: Vec<WalkEntry>,
) -> (r: Result<ProjectFilesResponse, ServiceError>)
    requires
        config_wf(*config),
    ensures
        match r {
            Err(e) => (e == ServiceError::Unauthorized && !authorized(*config, api_key@)) || (e
                == ServiceError::NotFound && authorized(*config, api_key@) && lookup(
                config.projects@,
                project_name@,
            ) is None) || (e == ServiceError::Internal && authorized(*config, api_key@) && lookup(
                config.projects@,
                project_name@,
            ) is Some && !all_valid(all_patterns(Seq::<Seq<char>>::empty()))),
            Ok(resp) => {
                let root = lookup(config.projects@, project_name@)->0;
                let found = spec_gather(entries@, Seq::empty(), Seq::empty());
                &&& authorized(*config, api_key@)
                &&& lookup(config.projects@, project_name@) is Some
                &&& resp.files@.len() == found.len()
                &&& forall|i: int|
                    0 <= i < found.len() ==> (#[trigger] resp.files@[i])@ == strip_prefix_of(
                        root,
                        found[i]@,
                    )
            },
        },
{
    match get_project_metadata(config, api_key, project_name, entries) {
        Ok(m) => Ok(ProjectFilesResponse { files: m.files }),
        Err(e) => Err(e),
    }
}

/// Answers a whole-project content request from the files read under
/// the project root: the caller is authorized, the project exists, and
/// the content is the document aggregation specifies for these files.
pub fn get_project_content(
    config: &Config,
    api_key: &str,
    project_name: &str,
    files: Vec<FileInput>,
) -> (r: Result<ProjectContentResponse, ServiceError>)
    requires
        config_wf(*config),
    ensures
        match r {
            Err(e) => (e == ServiceError::Unauthorized && !authorized(*config, api_key@)) || (e
                == ServiceError::NotFound && authorized(*config, api_key@) && lookup(
                config.projects@,
                project_name@,
            ) is None),
            Ok(resp) => authorized(*config, api_key@) && lookup(
                config.projects@,
                project_name@,
            ) is Some && resp.content@ == spec_document(files@, true),
        },
{
    if !validate_api_key(config, api_key) {
        return Err(ServiceError::Unauthorized);
    }
    match crate::config::find_project(config, project_name) {
        Some(_root) => {},
        None => {
            return Err(ServiceError::NotFound);
        },
    }
    let (content, _included) = concatenate_files(files, true);
    Ok(ProjectContentResponse { content })
}

/// Decides an aggregation request up to the filesystem: which roots to
/// walk. The whole project when no sub-paths are given; each sub-path
/// resolved against the root after confinement is checked.
pub fn plan_aggregation(
    config: &Config,
    api_key: &str,
    project_name: &str,
    req: &ContexterRequest,
) -> (r: Result<Vec<String>, ServiceError>)
    requires
        config_wf(*config),
    ensures
        match r {
            Err(e) => (e == ServiceError::Unauthorized && !authorized(*config, api_key@)) || (e
                == ServiceError::NotFound && authorized(*config, api_key@) && lookup(
                config.projects@,
                project_name@,
            ) is None) || (e == ServiceError::BadRequest && authorized(*config, api_key@)
                && lookup(config.projects@, project_name@) is Some && !request_paths_safe(*req)),
            Ok(roots) => {
                let root = lookup(config.projects@, project_name@)->0;
                &&& authorized(*config, api_key@)
                &&& lookup(config.projects@, project_name@) is Some
                &&& request_paths_safe(*req)
                &&& match req.paths {
                    None => roots@.len() == 1 && roots@[0]@ == root,
                    Some(ps) => roots@.len() == ps@.len() && forall|i: int|
                        0 <= i < ps@.len() ==> (#[trigger] roots@[i])@ == joined_path(
                            root,
                            ps@[i]@,
                        ),
                }
            },
        },
{
    let root = match resolve_project(config, api_key, project_name) {
        Ok(root) => root,
        Err(e) => {
            return Err(e);
        },
    };
    match &req.paths {
        None => {
            let mut roots: Vec<String> = Vec::new();
            roots.push(root);
            Ok(roots)
        },
        Some(ps) => {
            let mut roots: Vec<String> = Vec::new();
            let mut i: usize = 0;
            while i < ps.len()
                invariant
                    i <= ps@.len(),
                    roots@.len() == i,
                    req.paths is Some,
                    req.paths->0 == *ps,
                    authorized(*config, api_key@),
                    lookup(config.projects@, project_name@) == Some(root@),
                    forall|k: int| 0 <= k < i ==> sub_path_safe((#[trigger] ps@[k])@),
                    forall|k: int|
                        0 <= k < i ==> (#[trigger] roots@[k])@ == joined_path(root@, ps@[k]@),
                decreases ps@.len() - i,
            {
                if !sub_path_safe_exec(ps[i].as_str()) {
                    proof {
                        assert(req.paths is Some);
                        assert(req.paths->0 == *ps);
                        assert(!sub_path_safe(((req.paths->0)@[i as int])@));
                    }
                    return Err(ServiceError::BadRequest);
                }
                roots.push(join_path(root.as_str(), ps[i].as_str()));
                i = i + 1;
            }
            Ok(roots)
        },
    }
}

/// Assembles the aggregation response from the files read under the
/// planned roots: authorization, project resolution and confinement
/// are decided exactly as in the plan, and the document is the one
/// aggregation specifies for these files, metadata included.
pub fn run_contexter(
    config: &Config,
    api_key: &str,
    project_name: &str,
    req: &ContexterRequest,
    files: Vec<FileInput>,
) -> (r: Result<ProjectContentResponse, ServiceError>)
    requires
        config_wf(*config),
    ensures
        match r {
            Err(e) => (e == ServiceError::Unauthorized && !authorized(*config, api_key@)) || (e
                == ServiceError::NotFound && authorized(*config, api_key@) && lookup(
                config.projects@,
                project_name@,
            ) is None) || (e == ServiceError::BadRequest && authorized(*config, api_key@)
                && lookup(config.projects@, project_name@) is Some && !request_paths_safe(*req)),
            Ok(resp) => authorized(*config, api_key@) && lookup(
                config.projects@,
                project_name@,
            ) is Some && request_paths_safe(*req) && resp.content@ == spec_document(files@, true),
        },
{
    if !validate_api_key(config, api_key) {
        return Err(ServiceError::Unauthorized);
    }
    match crate::config::find_project(config, project_name) {
        Some(_root) => {},
        None => {
            return Err(ServiceError::NotFound);
        },
    }
    if let Some(ps) = &req.paths {
        let mut i: usize = 0;
        while i < ps.len()
            invariant
                i <= ps@.len(),
                req.paths is Some,
                req.paths->0 == *ps,
                authorized(*config, api_key@),
                lookup(config.projects@, project_name@) is Some,
                forall|k: int| 0 <= k < i ==> sub_path_safe((#[trigger] ps@[k])@),
            decreases ps@.len() - i,
        {
            if !sub_path_safe_exec(ps[i].as_str()) {
                proof {
                    assert(req.paths is Some);
                    assert(req.paths->0 == *ps);
                    assert(!sub_path_safe(((req.paths->0)@[i as int])@));
                }
                return Err(ServiceError::BadRequest);
            }
            i = i + 1;
        }
    }
    let (content, _included) = concatenate_files(files, true);
    Ok(ProjectContentResponse { content })
}

} // verus!
