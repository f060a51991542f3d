//! The layout of the local state directory `.netweevil/` under a
//! workspace root. Paths are joined with `/` as on Unix; creating the
//! directories is left to the caller.

use vstd::prelude::*;

use crate::text::{chars_of, chars_of_string, string_from_chars};

verus! {

/// Every directory of a workspace.
#[derive(Debug, Clone)]
pub struct WorkspacePaths {
    pub root: String,
    pub state_dir: String,
    pub bundles_dir: String,
    pub topology_bundles_dir: String,
    pub edge_name_bundles_dir: String,
    pub acceleration_bundles_dir: String,
    pub metric_bundles_dir: String,
    pub transit_bundles_dir: String,
    pub datasets_dir: String,
    pub transit_feeds_dir: String,
    pub compiled_profiles_dir: String,
    pub runs_dir: String,
    pub reports_dir: String,
}

/// `base` joined with the relative name `name`: `name` alone under an
/// empty base, else separated by one `/`.
pub open spec fn joined(base: Seq<char>, name: Seq<char>) -> Seq<char> {
    if base.len() == 0 {
        name
    } else if base.last() == '/' {
        base + name
    } else {
        base + seq!['/'] + name
    }
}

/// Joins a relative name onto a path.
pub fn join_path(base: &String, name: &str) -> (r: String)
    ensures
        r@ == joined(base@, name@),
{
    let mut b = chars_of_string(base);
    let mut n = chars_of(name);
    let ghost bv = b@;
    let ghost nv = n@;
    if b.len() == 0 {
        return string_from_chars(&n);
    }
    if b[b.len() - 1] != '/' {
        b.push('/');
    }
    let ghost mid = b@;
    b.append(&mut n);
    proof {
        assert(b@ =~= mid + nv);
        if bv.last() != '/' {
            assert(mid =~= bv + seq!['/']);
        }
    }
    string_from_chars(&b)
}

impl WorkspacePaths {
    /// The directories of the workspace rooted at `root`.
    pub fn discover(root: &str) -> (r: Self)
        ensures
            r.root@ == root@,
            r.state_dir@ == joined(root@, ".netweevil"@),
            r.bundles_dir@ == joined(r.state_dir@, "bundles"@),
            r.topology_bundles_dir@ == joined(r.bundles_dir@, "topology"@),
            r.edge_name_bundles_dir@ == joined(r.bundles_dir@, "names"@),
            r.acceleration_bundles_dir@ == joined(r.bundles_dir@, "acceleration"@),
            r.metric_bundles_dir@ == joined(r.bundles_dir@, "metrics"@),
            r.transit_bundles_dir@ == joined(r.bundles_dir@, "transit"@),
            r.datasets_dir@ == joined(r.state_dir@, "datasets"@),
            r.transit_feeds_dir@ == joined(r.state_dir@, "transit_feeds"@),
            r.compiled_profiles_dir@ == joined(r.state_dir@, "compiled_profiles"@),
            r.runs_dir@ == joined(r.state_dir@, "runs"@),
            r.reports_dir@ == joined(r.state_dir@, "reports"@),
    {
        let root = root.to_owned();
        let state_dir = join_path(&root, ".netweevil");
        let bundles_dir = join_path(&state_dir, "bundles");
        WorkspacePaths {
            topology_bundles_dir: join_path(&bundles_dir, "topology"),
            edge_name_bundles_dir: join_path(&bundles_dir, "names"),
            acceleration_bundles_dir: join_path(&bundles_dir, "acceleration"),
            metric_bundles_dir: join_path(&bundles_dir, "metrics"),
            transit_bundles_dir: join_path(&bundles_dir, "transit"),
            datasets_dir: join_path(&state_dir, "datasets"),
            transit_feeds_dir: join_path(&state_dir, "transit_feeds"),
            compiled_profiles_dir: join_path(&state_dir, "compiled_profiles"),
            runs_dir: join_path(&state_dir, "runs"),
            reports_dir: join_path(&state_dir, "reports"),
            bundles_dir,
            state_dir,
            root,
        }
    }
}

} // verus!
