//! The component schema registry: what components exist, under which
//! revision and deployment, with which handlers, and whether they are
//! reachable from the ingress.

use vstd::prelude::*;

verus! {

/// The revision of a registered component.
pub type ComponentRevision = u64;

/// The identifier of a deployment.
pub type DeploymentId = u64;

/// What kind of component a registration describes.
#[derive(Clone, Copy, Debug, PartialEq, Eq, Structural)]
pub enum ComponentType {
    Service,
    VirtualObject,
}

/// A handler found while discovering a component.
pub struct DiscoveredHandlerMetadata {
    pub name: String,
}

/// Where a component is served from.
pub enum ServiceLocation {
    BuiltIn { ingress_available: bool },
    Deployment { latest_deployment: DeploymentId, public: bool },
}

impl ServiceLocation {
    /// Whether the ingress may route to this location.
    pub open spec fn is_ingress_available_spec(&self) -> bool {
        match *self {
            ServiceLocation::BuiltIn { ingress_available } => ingress_available,
            ServiceLocation::Deployment { public, .. } => public,
        }
    }

    pub fn is_ingress_available(&self) -> (r: bool)
        ensures
            r == self.is_ingress_available_spec(),
    {
        match self {
            ServiceLocation::BuiltIn { ingress_available } => *ingress_available,
            ServiceLocation::Deployment { public, .. } => *public,
        }
    }
}

/// The registered schema of one component.
pub struct ComponentSchemas {
    pub revision: ComponentRevision,
    pub ty: ComponentType,
    pub handlers: Vec<String>,
    pub location: ServiceLocation,
}

/// The public description of a component, as handed out by the resolvers.
pub struct ComponentMetadata {
    pub name: String,
    pub handlers: Vec<String>,
    pub ty: ComponentType,
    pub latest_deployment: DeploymentId,
    pub revision: ComponentRevision,
    pub public: bool,
}

/// The slim description used by the ingress.
#[derive(Clone, Copy, Debug, PartialEq, Eq, Structural)]
pub struct BasicComponentMetadata {
    pub public: bool,
    pub ty: ComponentType,
}

/// Why a schema update was refused.
#[derive(Debug)]
pub enum SchemasUpdateError {
    UnknownComponent(String),
    ReservedName(String),
}

/// A command produced by an update computation, to be applied to the
/// registry.
pub enum SchemasUpdateCommand {
    ModifyComponent { name: String, public: bool },
}

/// The components registered under one deployment.
pub struct DeploymentSchemas {
    pub components: Vec<ComponentMetadata>,
}

/// Whether two strings are equal, character for character.
pub fn str_eq(a: &str, b: &str) -> (r: bool)
    ensures
        r == (a@ == b@),
{
    let n = a.unicode_len();
    let m = b.unicode_len();
    if n != m {
        return false;
    }
    let mut i: usize = 0;
    while i < n
        invariant
            n == a@.len(),
            n == b@.len(),
            i <= n,
            forall|k: int| 0 <= k < i ==> a@[k] == b@[k],
        decreases n - i,
    {
        if a.get_char(i) != b.get_char(i) {
            return false;
        }
        i = i + 1;
    }
    proof {
        assert(a@ =~= b@);
    }
    true
}

/// Whether `c` is `lower` up to ASCII case: equal, or the upper-case ASCII
/// letter whose lower-case form is `lower`.
pub open spec fn ci_eq(c: char, lower: char) -> bool {
    c == lower || (65 <= c as u32 <= 90 && c as u32 + 32 == lower as u32)
}

/// Whether `pat` is a prefix of `s` up to ASCII case, `pat` given in lower
/// case.
pub open spec fn ci_prefix(pat: Seq<char>, s: Seq<char>) -> bool {
    pat.len() <= s.len() && forall|i: int| 0 <= i < pat.len() ==> ci_eq(s[i], #[trigger] pat[i])
}

/// Whether a component name is reserved: it starts with `restate` or equals
/// `openapi`, compared without regard to ASCII case.
pub open spec fn is_reserved_name(s: Seq<char>) -> bool {
    ci_prefix("restate"@, s) || (s.len() == "openapi"@.len() && ci_prefix("openapi"@, s))
}

/// Executable ASCII-case-insensitive prefix check.
fn ci_prefix_exec(pat: &str, s: &str) -> (r: bool)
    ensures
        r == ci_prefix(pat@, s@),
{
    let pl = pat.unicode_len();
    let sl = s.unicode_len();
    if pl > sl {
        return false;
    }
    let mut i: usize = 0;
    while i < pl
        invariant
            pl == pat@.len(),
            sl == s@.len(),
            pl <= sl,
            i <= pl,
            forall|k: int| 0 <= k < i ==> ci_eq(s@[k], #[trigger] pat@[k]),
        decreases pl - i,
    {
        let pc = pat.get_char(i);
        let sc = s.get_char(i);
        let sc32 = sc as u32;
        let pc32 = pc as u32;
        let ok = sc == pc || (65 <= sc32 && sc32 <= 90 && sc32 + 32 == pc32);
        if !ok {
            return false;
        }
        i = i + 1;
    }
    true
}

/// Refuses reserved component names: those that begin with `restate` or
/// equal `openapi`, without regard to ASCII case.
pub fn check_reserved_name(name: &str) -> (r: Result<(), SchemasUpdateError>)
    ensures
        r is Err <==> is_reserved_name(name@),
        r matches Err(e) ==> (e matches SchemasUpdateError::ReservedName(n) && n@ == name@),
{
    let restate_prefix = ci_prefix_exec("restate", name);
    let openapi_exact = name.unicode_len() == "openapi".unicode_len()
        && ci_prefix_exec("openapi", name);
    proof {
        reveal_strlit("openapi");
    }
    if restate_prefix || openapi_exact {
        return Result::Err(SchemasUpdateError::ReservedName(name.to_owned()));
    }
    Result::Ok(())
}

/// Some position of an association list carries this component name.
pub open spec fn comp_key_at(
    cs: Seq<(String, ComponentSchemas)>,
    i: int,
    name: Seq<char>,
) -> bool {
    0 <= i < cs.len() && cs[i].0@ == name
}

/// The registry knows a component of this name.
pub open spec fn has_component(cs: Seq<(String, ComponentSchemas)>, name: Seq<char>) -> bool {
    exists|i: int| #[trigger] comp_key_at(cs, i, name)
}

/// The position of a component name in the association list.
pub open spec fn comp_idx(cs: Seq<(String, ComponentSchemas)>, name: Seq<char>) -> int {
    choose|i: int| #[trigger] comp_key_at(cs, i, name)
}

/// The schema registered under a component name.
pub open spec fn comp_at(
    cs: Seq<(String, ComponentSchemas)>,
    name: Seq<char>,
) -> ComponentSchemas {
    cs[comp_idx(cs, name)].1
}

/// Component names occur at most once.
pub open spec fn comp_keys_unique(cs: Seq<(String, ComponentSchemas)>) -> bool {
    forall|i: int, j: int|
        0 <= i < cs.len() && 0 <= j < cs.len() && (#[trigger] cs[i].0@) == (#[trigger] cs[j].0@)
            ==> i == j
}

/// A service name is registered.
pub open spec fn has_service(sv: Seq<String>, name: Seq<char>) -> bool {
    exists|i: int| 0 <= i < sv.len() && (#[trigger] sv[i])@ == name
}

/// A deployment id is registered.
pub open spec fn has_deployment(ds: Seq<(u64, DeploymentSchemas)>, id: u64) -> bool {
    exists|i: int| 0 <= i < ds.len() && (#[trigger] ds[i]).0 == id
}

/// The position of a deployment id.
pub open spec fn depl_idx(ds: Seq<(u64, DeploymentSchemas)>, id: u64) -> int {
    choose|i: int| 0 <= i < ds.len() && (#[trigger] ds[i]).0 == id
}

/// Deployment ids occur at most once.
pub open spec fn depl_keys_unique(ds: Seq<(u64, DeploymentSchemas)>) -> bool {
    forall|i: int, j: int|
        0 <= i < ds.len() && 0 <= j < ds.len() && (#[trigger] ds[i]).0 == (#[trigger] ds[j]).0
            ==> i == j
}

/// The names of a discovered handler list, deduplicated keeping the first
/// occurrence of each name.
pub open spec fn dedup_names(s: Seq<Seq<char>>) -> Seq<Seq<char>>
    decreases s.len(),
{
    if s.len() == 0 {
        Seq::empty()
    } else {
        let rest = dedup_names(s.drop_last());
        if rest.contains(s.last()) {
            rest
        } else {
            rest.push(s.last())
        }
    }
}

/// The name views of a string vector.
pub open spec fn name_views(v: Seq<String>) -> Seq<Seq<char>> {
    v.map(|i: int, s: String| s@)
}

/// The name views of a discovered handler list.
pub open spec fn discovered_views(v: Seq<DiscoveredHandlerMetadata>) -> Seq<Seq<char>> {
    v.map(|i: int, h: DiscoveredHandlerMetadata| h.name@)
}

/// Whether a string vector contains a string, by value.
fn names_contain(v: &Vec<String>, name: &str) -> (r: bool)
    ensures
        r == name_views(v@).contains(name@),
{
    let n = v.len();
    let mut i: usize = 0;
    while i < n
        invariant
            n == v@.len(),
            i <= n,
            forall|k: int| 0 <= k < i ==> (#[trigger] v@[k])@ != name@,
        decreases n - i,
    {
        if str_eq(v[i].as_str(), name) {
            proof {
                assert(name_views(v@)[i as int] == name@);
            }
            return true;
        }
        i = i + 1;
    }
    proof {
        if name_views(v@).contains(name@) {
            let k = choose|k: int|
                0 <= k < name_views(v@).len() && name_views(v@)[k] == name@;
            assert(v@[k]@ == name@);
        }
    }
    false
}

/// Collapses a discovered handler list to its handler names, dropping
/// duplicate names and keeping the first occurrence of each.
pub fn compute_handlers(handlers: Vec<DiscoveredHandlerMetadata>) -> (r: Vec<String>)
    ensures
        name_views(r@) == dedup_names(discovered_views(handlers@)),
{
    let ghost all = discovered_views(handlers@);
    let mut out: Vec<String> = Vec::new();
    let mut handlers = handlers;
    let n = handlers.len();
    let mut i: usize = 0;
    while i < n
        invariant
            n == all.len(),
            handlers@.len() == n - i,
            forall|k: int| 0 <= k < handlers@.len()
                ==> (#[trigger] handlers@[k]).name@ == all[k + i],
            i <= n,
            name_views(out@) == dedup_names(all.take(i as int)),
        decreases n - i,
    {
        let h = handlers.remove(0);
        let ghost before = out@;
        if !names_contain(&out, h.name.as_str()) {
            out.push(h.name);
            proof {
                assert(name_views(out@) =~= name_views(before).push(all[i as int]));
            }
        }
        i = i + 1;
        proof {
            assert(all.take(i as int).drop_last() =~= all.take(i - 1));
            assert(all.take(i as int).last() == all[i - 1]);
        }
    }
    proof {
        assert(all.take(n as int) =~= all);
    }
    out
}

/// An exact copy of a string vector.
fn copy_names(v: &Vec<String>) -> (r: Vec<String>)
    ensures
        r@.len() == v@.len(),
        forall|i: int| 0 <= i < v@.len() ==> (#[trigger] r@[i]) == v@[i],
{
    let n = v.len();
    let mut r: Vec<String> = Vec::new();
    let mut i: usize = 0;
    while i < n
        invariant
            n == v@.len(),
            i <= n,
            r@.len() == i,
            forall|k: int| 0 <= k < i ==> (#[trigger] r@[k]) == v@[k],
        decreases n - i,
    {
        r.push(v[i].clone());
        i = i + 1;
    }
    r
}

impl ComponentSchemas {
    /// The public description of this schema under the given name; a
    /// built-in component has none.
    pub fn as_component_metadata(&self, name: String) -> (r: Option<ComponentMetadata>)
        ensures
            r is Some <==> self.location is Deployment,
            r matches Some(m) ==> {
                &&& m.name == name
                &&& m.handlers@.len() == self.handlers@.len()
                &&& forall|i: int| 0 <= i < self.handlers@.len()
                    ==> (#[trigger] m.handlers@[i]) == self.handlers@[i]
                &&& m.ty == self.ty
                &&& m.revision == self.revision
                &&& (self.location matches ServiceLocation::Deployment {
                    latest_deployment, public
                } && m.latest_deployment == latest_deployment && m.public == public)
            },
    {
        match &self.location {
            ServiceLocation::BuiltIn { .. } => Option::None,
            ServiceLocation::Deployment { latest_deployment, public } => Option::Some(
                ComponentMetadata {
                    name,
                    handlers: copy_names(&self.handlers),
                    ty: self.ty,
                    latest_deployment: *latest_deployment,
                    revision: self.revision,
                    public: *public,
                },
            ),
        }
    }
}

/// The in-memory registry: components and services by name, deployments by
/// id.
pub struct SchemasInner {
    pub components: Vec<(String, ComponentSchemas)>,
    pub services: Vec<String>,
    pub deployments: Vec<(DeploymentId, DeploymentSchemas)>,
}

impl SchemasInner {
    /// Well-formedness: names and ids are registered at most once.
    pub open spec fn wf(&self) -> bool {
        &&& comp_keys_unique(self.components@)
        &&& depl_keys_unique(self.deployments@)
    }

    /// An empty registry.
    pub fn new() -> (r: SchemasInner)
        ensures
            r.wf(),
            r.components@.len() == 0,
            r.services@.len() == 0,
            r.deployments@.len() == 0,
    {
        SchemasInner { components: Vec::new(), services: Vec::new(), deployments: Vec::new() }
    }

    /// Registers a service name, for lookups by the update computations.
    pub fn add_service(&mut self, name: String)
        requires
            old(self).wf(),
        ensures
            final(self).wf(),
            final(self).services@ == old(self).services@.push(name),
            final(self).components == old(self).components,
            final(self).deployments == old(self).deployments,
    {
        self.services.push(name);
    }

    /// Registers an empty deployment.
    pub fn add_deployment(&mut self, id: DeploymentId)
        requires
            old(self).wf(),
            !has_deployment(old(self).deployments@, id),
        ensures
            final(self).wf(),
            has_deployment(final(self).deployments@, id),
            final(self).components == old(self).components,
            final(self).services == old(self).services,
            final(self).deployments@.len() == old(self).deployments@.len() + 1,
    {
        let ghost before = self.deployments@;
        self.deployments.push((id, DeploymentSchemas { components: Vec::new() }));
        proof {
            let n = before.len() as int;
            assert(self.deployments@[n].0 == id);
            assert forall|i: int, j: int|
                0 <= i < self.deployments@.len() && 0 <= j < self.deployments@.len()
                    && (#[trigger] self.deployments@[i]).0 == (#[trigger] self.deployments@[j]).0
                implies i == j by {
                if i < n && j < n {
                    assert(before[i].0 == before[j].0);
                } else if i < n && j == n {
                    assert(has_deployment(before, id));
                } else if i == n && j < n {
                    assert(has_deployment(before, id));
                }
            }
        }
    }

    /// The position of a component name, if registered.
    fn find_component(&self, name: &str) -> (r: Option<usize>)
        ensures
            r matches Some(i) ==> comp_key_at(self.components@, i as int, name@),
            r is None ==> !has_component(self.components@, name@),
    {
        let n = self.components.len();
        let mut i: usize = 0;
        while i < n
            invariant
                n == self.components@.len(),
                i <= n,
                forall|k: int| 0 <= k < i ==> (#[trigger] self.components@[k]).0@ != name@,
            decreases n - i,
        {
            if str_eq(self.components[i].0.as_str(), name) {
                return Option::Some(i);
            }
            i = i + 1;
        }
        proof {
            if has_component(self.components@, name@) {
                let k = choose|k: int| #[trigger] comp_key_at(self.components@, k, name@);
            }
        }
        Option::None
    }

    /// The position of a service name, if registered.
    fn find_service(&self, name: &str) -> (r: Option<usize>)
        ensures
            r is Some <==> has_service(self.services@, name@),
    {
        let n = self.services.len();
        let mut i: usize = 0;
        while i < n
            invariant
                n == self.services@.len(),
                i <= n,
                forall|k: int| 0 <= k < i ==> (#[trigger] self.services@[k])@ != name@,
            decreases n - i,
        {
            if str_eq(self.services[i].as_str(), name) {
                return Option::Some(i);
            }
            i = i + 1;
        }
        proof {
            if has_service(self.services@, name@) {
                let k = choose|k: int|
                    0 <= k < self.services@.len() && (#[trigger] self.services@[k])@ == name@;
            }
        }
        Option::None
    }

    /// The position of a deployment id, if registered.
    fn find_deployment(&self, id: DeploymentId) -> (r: Option<usize>)
        ensures
            r matches Some(i) ==> i < self.deployments@.len()
                && self.deployments@[i as int].0 == id,
            r is None ==> !has_deployment(self.deployments@, id),
    {
        let n = self.deployments.len();
        let mut i: usize = 0;
        while i < n
            invariant
                n == self.deployments@.len(),
                i <= n,
                forall|k: int| 0 <= k < i ==> (#[trigger] self.deployments@[k]).0 != id,
            decreases n - i,
        {
            if self.deployments[i].0 == id {
                return Option::Some(i);
            }
            i = i + 1;
        }
        proof {
            if has_deployment(self.deployments@, id) {
                let k = choose|k: int|
                    0 <= k < self.deployments@.len() && (#[trigger] self.deployments@[k]).0 == id;
            }
        }
        Option::None
    }

    /// Computes the update command for changing a component's visibility:
    /// refused for a reserved name, refused for an unknown component, and
    /// otherwise the modify command itself.
    pub fn compute_modify_component_updates(
        &self,
        name: String,
        public: bool,
    ) -> (r: Result<SchemasUpdateCommand, SchemasUpdateError>)
        ensures
            is_reserved_name(name@) ==> (r matches Err(e)
                && (e matches SchemasUpdateError::ReservedName(n) && n@ == name@)),
            !is_reserved_name(name@) && !has_service(self.services@, name@)
                ==> (r matches Err(e)
                    && (e matches SchemasUpdateError::UnknownComponent(n) && n@ == name@)),
            !is_reserved_name(name@) && has_service(self.services@, name@)
                ==> (r matches Ok(c)
                    && (c matches SchemasUpdateCommand::ModifyComponent { name: n, public: p }
                        && n@ == name@ && p == public)),
    {
        match check_reserved_name(name.as_str()) {
            Result::Err(e) => {
                return Result::Err(e);
            },
            Result::Ok(_) => {},
        }
        if self.find_service(name.as_str()).is_none() {
            return Result::Err(SchemasUpdateError::UnknownComponent(name));
        }
        Result::Ok(SchemasUpdateCommand::ModifyComponent { name, public })
    }

    /// Changes a component's visibility: the `public` flag of its deployment
    /// location. A built-in component is left as it is; an unknown name is
    /// refused.
    pub fn apply_modify_component(
        &mut self,
        name: String,
        new_public_value: bool,
    ) -> (r: Result<(), SchemasUpdateError>)
        requires
            old(self).wf(),
        ensures
            final(self).wf(),
            final(self).services == old(self).services,
            final(self).deployments == old(self).deployments,
            !has_component(old(self).components@, name@) ==> (r matches Err(e)
                && (e matches SchemasUpdateError::UnknownComponent(n) && n@ == name@)
                && final(self).components == old(self).components),
            has_component(old(self).components@, name@) ==> {
                &&& r is Ok
                &&& final(self).components@.len() == old(self).components@.len()
                &&& forall|i: int|
                    0 <= i < old(self).components@.len() && i != comp_idx(
                        old(self).components@, name@)
                    ==> (#[trigger] final(self).components@[i]) == old(self).components@[i]
                &&& ({
                    let i = comp_idx(old(self).components@, name@);
                    let before = old(self).components@[i].1;
                    let after = final(self).components@[i];
                    &&& after.0 == old(self).components@[i].0
                    &&& after.1.revision == before.revision
                    &&& after.1.ty == before.ty
                    &&& after.1.handlers == before.handlers
                    &&& match before.location {
                        ServiceLocation::BuiltIn { ingress_available } =>
                            after.1.location matches ServiceLocation::BuiltIn {
                                ingress_available: ia,
                            } && ia == ingress_available,
                        ServiceLocation::Deployment { latest_deployment, .. } =>
                            after.1.location matches ServiceLocation::Deployment {
                                latest_deployment: d,
                                public: p,
                            } && d == latest_deployment && p == new_public_value,
                    }
                })
            },
    {
        let idx = match self.find_component(name.as_str()) {
            Option::Some(i) => i,
            Option::None => {
                return Result::Err(SchemasUpdateError::UnknownComponent(name));
            },
        };
        proof {
            assert(comp_key_at(self.components@, idx as int, name@));
            assert(has_component(self.components@, name@));
            assert(comp_key_at(self.components@, comp_idx(self.components@, name@), name@));
            assert(comp_idx(self.components@, name@) == idx as int);
        }
        let entry = self.components.remove(idx);
        let (key, schemas) = entry;
        let location = match schemas.location {
            ServiceLocation::BuiltIn { ingress_available } => ServiceLocation::BuiltIn {
                ingress_available,
            },
            ServiceLocation::Deployment { latest_deployment, .. } => {
                ServiceLocation::Deployment {
                    latest_deployment,
                    public: new_public_value,
                }
            },
        };
        let updated = ComponentSchemas {
            revision: schemas.revision,
            ty: schemas.ty,
            handlers: schemas.handlers,
            location,
        };
        self.components.insert(idx, (key, updated));
        proof {
            let old_cs = old(self).components@;
            let new_cs = self.components@;
            assert(new_cs =~= old_cs.update(idx as int, new_cs[idx as int]));
            assert(forall|i: int| 0 <= i < new_cs.len()
                ==> (#[trigger] new_cs[i]).0 == old_cs[i].0);
            assert forall|i: int, j: int|
                0 <= i < new_cs.len() && 0 <= j < new_cs.len()
                    && (#[trigger] new_cs[i].0@) == (#[trigger] new_cs[j].0@)
                implies i == j by {
                assert(old_cs[i].0@ == old_cs[j].0@);
            }
        }
        Result::Ok(())
    }

    /// Registers a component under a deployment. An existing registration of
    /// the same name is overwritten — revision, type, handlers and latest
    /// deployment — but keeps its visibility; a new one starts public. The
    /// component is also recorded in its deployment. The deployment must
    /// already be registered, and the name must not belong to a built-in
    /// component.
    pub fn apply_insert_component(
        &mut self,
        name: String,
        revision: ComponentRevision,
        ty: ComponentType,
        deployment_id: DeploymentId,
        handlers: Vec<DiscoveredHandlerMetadata>,
    ) -> (r: Result<(), SchemasUpdateError>)
        requires
            old(self).wf(),
            has_deployment(old(self).deployments@, deployment_id),
            has_component(old(self).components@, name@)
                ==> comp_at(old(self).components@, name@).location is Deployment,
        ensures
            final(self).wf(),
            r is Ok,
            final(self).services == old(self).services,
            has_component(final(self).components@, name@),
            ({
                let cs0 = old(self).components@;
                let cs1 = final(self).components@;
                let after = comp_at(cs1, name@);
                &&& after.revision == revision
                &&& after.ty == ty
                &&& name_views(after.handlers@) == dedup_names(discovered_views(handlers@))
                &&& (after.location matches ServiceLocation::Deployment {
                    latest_deployment: d,
                    public: p,
                } && d == deployment_id && p == (if has_component(cs0, name@) {
                    comp_at(cs0, name@).location->Deployment_public
                } else {
                    true
                }))
                &&& if has_component(cs0, name@) {
                    &&& cs1.len() == cs0.len()
                    &&& forall|i: int| 0 <= i < cs0.len() && i != comp_idx(cs0, name@)
                        ==> (#[trigger] cs1[i]) == cs0[i]
                    &&& cs1[comp_idx(cs0, name@)].0@ == name@
                } else {
                    &&& cs1.len() == cs0.len() + 1
                    &&& forall|i: int| 0 <= i < cs0.len() ==> (#[trigger] cs1[i]) == cs0[i]
                    &&& cs1.last().0@ == name@
                }
            }),
            ({
                let ds0 = old(self).deployments@;
                let ds1 = final(self).deployments@;
                let di = depl_idx(ds0, deployment_id);
                &&& ds1.len() == ds0.len()
                &&& forall|i: int| 0 <= i < ds0.len() && i != di
                    ==> (#[trigger] ds1[i]) == ds0[i]
                &&& ds1[di].0 == deployment_id
                &&& ds1[di].1.components@.len() == ds0[di].1.components@.len() + 1
                &&& forall|i: int| 0 <= i < ds0[di].1.components@.len()
                    ==> (#[trigger] ds1[di].1.components@[i]) == ds0[di].1.components@[i]
                &&& ds1[di].1.components@.last().name@ == name@
                &&& ds1[di].1.components@.last().revision == revision
                &&& ds1[di].1.components@.last().ty == ty
                &&& ds1[di].1.components@.last().latest_deployment == deployment_id
            }),
    {
        let handler_names = compute_handlers(handlers);
        let public: bool;
        let cidx: usize;
        let ghost cs0 = self.components@;
        match self.find_component(name.as_str()) {
            Option::Some(i) => {
                proof {
                    assert(comp_key_at(cs0, i as int, name@));
                    assert(has_component(cs0, name@));
                    assert(comp_key_at(cs0, comp_idx(cs0, name@), name@));
                    assert(comp_idx(cs0, name@) == i as int);
                }
                let entry = self.components.remove(i);
                public = match entry.1.location {
                    ServiceLocation::Deployment { public: p, .. } => p,
                    ServiceLocation::BuiltIn { .. } => {
                        proof {
                            assert(false);
                        }
                        true
                    },
                };
                let updated = ComponentSchemas {
                    revision,
                    ty,
                    handlers: handler_names,
                    location: ServiceLocation::Deployment {
                        latest_deployment: deployment_id,
                        public,
                    },
                };
                self.components.insert(i, (entry.0, updated));
                cidx = i;
                proof {
                    let cs1 = self.components@;
                    assert(cs1 =~= cs0.update(i as int, cs1[i as int]));
                    assert(forall|k: int| 0 <= k < cs1.len()
                        ==> (#[trigger] cs1[k]).0 == cs0[k].0);
                    assert forall|a: int, b: int|
                        0 <= a < cs1.len() && 0 <= b < cs1.len()
                            && (#[trigger] cs1[a].0@) == (#[trigger] cs1[b].0@)
                        implies a == b by {
                        assert(cs0[a].0@ == cs0[b].0@);
                    }
                    assert(comp_key_at(cs1, i as int, name@));
                    assert(has_component(cs1, name@));
                    assert(comp_key_at(cs1, comp_idx(cs1, name@), name@));
                    assert(comp_idx(cs1, name@) == i as int);
                }
            },
            Option::None => {
                public = true;
                cidx = self.components.len();
                let key = name.clone();
                let fresh = ComponentSchemas {
                    revision,
                    ty,
                    handlers: handler_names,
                    location: ServiceLocation::Deployment {
                        latest_deployment: deployment_id,
                        public: true,
                    },
                };
                self.components.push((key, fresh));
                proof {
                    let cs1 = self.components@;
                    let n = cs0.len() as int;
                    assert(forall|k: int| 0 <= k < n ==> (#[trigger] cs1[k]) == cs0[k]);
                    assert(cs1[n].0@ == name@);
                    assert forall|a: int, b: int|
                        0 <= a < cs1.len() && 0 <= b < cs1.len()
                            && (#[trigger] cs1[a].0@) == (#[trigger] cs1[b].0@)
                        implies a == b by {
                        if a < n && b < n {
                            assert(cs0[a].0@ == cs0[b].0@);
                        } else if a < n && b == n {
                            assert(comp_key_at(cs0, a, name@));
                            assert(has_component(cs0, name@));
                        } else if a == n && b < n {
                            assert(comp_key_at(cs0, b, name@));
                            assert(has_component(cs0, name@));
                        }
                    }
                    assert(comp_key_at(cs1, n, name@));
                    assert(has_component(cs1, name@));
                    assert(comp_key_at(cs1, comp_idx(cs1, name@), name@));
                    assert(comp_idx(cs1, name@) == n);
                }
            },
        }
        let metadata = self.components[cidx].1.as_component_metadata(name);
        let md = match metadata {
            Option::Some(m) => m,
            Option::None => {
                proof {
                    assert(false);
                }
                return Result::Ok(());
            },
        };
        let didx = match self.find_deployment(deployment_id) {
            Option::Some(i) => i,
            Option::None => {
                proof {
                    assert(false);
                }
                return Result::Ok(());
            },
        };
        proof {
            let ds0 = self.deployments@;
            assert(has_deployment(ds0, deployment_id));
            let di = depl_idx(ds0, deployment_id);
            assert(0 <= di < ds0.len() && ds0[di].0 == deployment_id);
            assert(di == didx as int);
        }
        let ghost ds0 = self.deployments@;
        let mut entry = self.deployments.remove(didx);
        entry.1.components.push(md);
        self.deployments.insert(didx, entry);
        proof {
            let ds1 = self.deployments@;
            assert(ds1 =~= ds0.update(didx as int, ds1[didx as int]));
            assert(forall|k: int| 0 <= k < ds1.len() ==> (#[trigger] ds1[k]).0 == ds0[k].0);
            assert forall|a: int, b: int|
                0 <= a < ds1.len() && 0 <= b < ds1.len()
                    && (#[trigger] ds1[a]).0 == (#[trigger] ds1[b]).0
                implies a == b by {
                assert(ds0[a].0 == ds0[b].0);
            }
            assert(depl_idx(old(self).deployments@, deployment_id) == didx as int) by {
                let di = depl_idx(old(self).deployments@, deployment_id);
                assert(0 <= di < old(self).deployments@.len()
                    && old(self).deployments@[di].0 == deployment_id);
            }
        }
        Result::Ok(())
    }

    /// Removes a component, but only under the expected revision: a removal
    /// that lost a race with a newer registration is a no-op. Never fails.
    pub fn apply_remove_component(
        &mut self,
        name: String,
        revision: ComponentRevision,
    ) -> (r: Result<(), SchemasUpdateError>)
        requires
            old(self).wf(),
        ensures
            final(self).wf(),
            r is Ok,
            final(self).services == old(self).services,
            final(self).deployments == old(self).deployments,
            ({
                let cs = old(self).components@;
                if has_component(cs, name@) && comp_at(cs, name@).revision == revision {
                    &&& final(self).components@ == cs.remove(comp_idx(cs, name@))
                    &&& !has_component(final(self).components@, name@)
                } else {
                    final(self).components == old(self).components
                }
            }),
    {
        let idx = match self.find_component(name.as_str()) {
            Option::Some(i) => i,
            Option::None => {
                return Result::Ok(());
            },
        };
        proof {
            assert(comp_key_at(self.components@, idx as int, name@));
            assert(has_component(self.components@, name@));
            assert(comp_key_at(self.components@, comp_idx(self.components@, name@), name@));
            assert(comp_idx(self.components@, name@) == idx as int);
        }
        if self.components[idx].1.revision == revision {
            let ghost old_cs = self.components@;
            let _ = self.components.remove(idx);
            proof {
                let new_cs = self.components@;
                assert(forall|i: int| 0 <= i < idx ==> (#[trigger] new_cs[i]) == old_cs[i]);
                assert(forall|i: int| idx <= i < new_cs.len()
                    ==> (#[trigger] new_cs[i]) == old_cs[i + 1]);
                assert forall|i: int, j: int|
                    0 <= i < new_cs.len() && 0 <= j < new_cs.len()
                        && (#[trigger] new_cs[i].0@) == (#[trigger] new_cs[j].0@)
                    implies i == j by {
                    let a = if i < idx { i } else { i + 1 };
                    let b = if j < idx { j } else { j + 1 };
                    assert(old_cs[a].0@ == old_cs[b].0@);
                }
                assert(!has_component(new_cs, name@)) by {
                    if has_component(new_cs, name@) {
                        let k = choose|k: int| #[trigger] comp_key_at(new_cs, k, name@);
                        let a = if k < idx { k } else { k + 1 };
                        assert(old_cs[a].0@ == name@);
                        assert(comp_key_at(old_cs, a, name@));
                        assert(a == idx);
                    }
                }
            }
        }
        Result::Ok(())
    }
    /// Resolves the ingress view of one handler: whether the component is
    /// reachable and of which type, provided the component exists and has
    /// the handler.
    pub fn resolve_latest_component_handler(
        &self,
        component_name: &str,
        handler_name: &str,
    ) -> (r: Option<BasicComponentMetadata>)
        requires
            self.wf(),
        ensures
            r is Some <==> (has_component(self.components@, component_name@)
                && name_views(comp_at(self.components@, component_name@).handlers@)
                    .contains(handler_name@)),
            r matches Some(b) ==> {
                &&& b.public == comp_at(self.components@, component_name@)
                    .location.is_ingress_available_spec()
                &&& b.ty == comp_at(self.components@, component_name@).ty
            },
    {
        let idx = match self.find_component(component_name) {
            Option::Some(i) => i,
            Option::None => {
                return Option::None;
            },
        };
        proof {
            assert(comp_key_at(self.components@, idx as int, component_name@));
            assert(has_component(self.components@, component_name@));
            assert(comp_key_at(
                self.components@, comp_idx(self.components@, component_name@),
                component_name@));
            assert(comp_idx(self.components@, component_name@) == idx as int);
        }
        let schemas = &self.components[idx].1;
        if names_contain(&schemas.handlers, handler_name) {
            Option::Some(BasicComponentMetadata {
                public: schemas.location.is_ingress_available(),
                ty: schemas.ty,
            })
        } else {
            Option::None
        }
    }

    /// Resolves the type of a component.
    pub fn resolve_latest_component_type(&self, component_name: &str) -> (r: Option<
        ComponentType,
    >)
        requires
            self.wf(),
        ensures
            r is Some <==> has_component(self.components@, component_name@),
            r matches Some(t) ==> t == comp_at(self.components@, component_name@).ty,
    {
        let idx = match self.find_component(component_name) {
            Option::Some(i) => i,
            Option::None => {
                return Option::None;
            },
        };
        proof {
            assert(comp_key_at(self.components@, idx as int, component_name@));
            assert(has_component(self.components@, component_name@));
            assert(comp_key_at(
                self.components@, comp_idx(self.components@, component_name@),
                component_name@));
            assert(comp_idx(self.components@, component_name@) == idx as int);
        }
        Option::Some(self.components[idx].1.ty)
    }

    /// Resolves the full public description of a component; a built-in
    /// component has none.
    pub fn resolve_latest_component(&self, component_name: &str) -> (r: Option<
        ComponentMetadata,
    >)
        requires
            self.wf(),
        ensures
            r is Some <==> (has_component(self.components@, component_name@)
                && comp_at(self.components@, component_name@).location is Deployment),
            r matches Some(m) ==> {
                let c = comp_at(self.components@, component_name@);
                &&& m.name@ == component_name@
                &&& m.ty == c.ty
                &&& m.revision == c.revision
                &&& name_views(m.handlers@) == name_views(c.handlers@)
                &&& (c.location matches ServiceLocation::Deployment {
                    latest_deployment, public
                } && m.latest_deployment == latest_deployment && m.public == public)
            },
    {
        let idx = match self.find_component(component_name) {
            Option::Some(i) => i,
            Option::None => {
                return Option::None;
            },
        };
        proof {
            assert(comp_key_at(self.components@, idx as int, component_name@));
            assert(has_component(self.components@, component_name@));
            assert(comp_key_at(
                self.components@, comp_idx(self.components@, component_name@),
                component_name@));
            assert(comp_idx(self.components@, component_name@) == idx as int);
        }
        let r = self.components[idx].1.as_component_metadata(component_name.to_owned());
        proof {
            if r is Some {
                assert(name_views(r->0.handlers@) =~= name_views(
                    comp_at(self.components@, component_name@).handlers@));
            }
        }
        r
    }

    /// Lists the public description of every component that is served from a
    /// deployment, in registration order; built-in components are left out.
    pub fn list_components(&self) -> (r: Vec<ComponentMetadata>)
        ensures
            r@.map(|i: int, m: ComponentMetadata| md_view(m))
                == listed_metas(self.components@),
    {
        let ghost cs = self.components@;
        let n = self.components.len();
        let mut out: Vec<ComponentMetadata> = Vec::new();
        let mut i: usize = 0;
        while i < n
            invariant
                n == cs.len(),
                cs == self.components@,
                i <= n,
                out@.map(|k: int, m: ComponentMetadata| md_view(m))
                    == listed_metas(cs.take(i as int)),
            decreases n - i,
        {
            let ghost before = out@;
            let name = self.components[i].0.clone();
            match self.components[i].1.as_component_metadata(name) {
                Option::Some(m) => {
                    out.push(m);
                    proof {
                        assert(out@.map(|k: int, m2: ComponentMetadata| md_view(m2)) =~= before
                            .map(|k: int, m2: ComponentMetadata| md_view(m2))
                            .push(md_view(out@.last())));
                        assert(out@.last().name@ == cs[i as int].0@);
                        assert(name_views(out@.last().handlers@)
                            =~= name_views(cs[i as int].1.handlers@));
                        assert(md_view(out@.last()) == meta_of(cs[i as int]));
                    }
                },
                Option::None => {},
            }
            i = i + 1;
            proof {
                assert(cs.take(i as int).drop_last() =~= cs.take(i - 1));
                assert(cs.take(i as int).last() == cs[i - 1]);
            }
        }
        proof {
            assert(cs.take(n as int) =~= cs);
        }
        out
    }
}

/// The mathematical view of a component description.
pub struct ComponentMetadataView {
    pub name: Seq<char>,
    pub handlers: Seq<Seq<char>>,
    pub ty: ComponentType,
    pub latest_deployment: DeploymentId,
    pub revision: ComponentRevision,
    pub public: bool,
}

/// The view of one component description.
pub open spec fn md_view(m: ComponentMetadata) -> ComponentMetadataView {
    ComponentMetadataView {
        name: m.name@,
        handlers: name_views(m.handlers@),
        ty: m.ty,
        latest_deployment: m.latest_deployment,
        revision: m.revision,
        public: m.public,
    }
}

/// The description a registry entry contributes to a listing; only entries
/// served from a deployment contribute.
pub open spec fn meta_of(e: (String, ComponentSchemas)) -> ComponentMetadataView {
    ComponentMetadataView {
        name: e.0@,
        handlers: name_views(e.1.handlers@),
        ty: e.1.ty,
        latest_deployment: e.1.location->Deployment_latest_deployment,
        revision: e.1.revision,
        public: e.1.location->Deployment_public,
    }
}

/// The listing of a registry: the deployment-served entries, in order.
pub open spec fn listed_metas(cs: Seq<(String, ComponentSchemas)>) -> Seq<ComponentMetadataView>
    decreases cs.len(),
{
    if cs.len() == 0 {
        Seq::empty()
    } else {
        let rest = listed_metas(cs.drop_last());
        if cs.last().1.location is Deployment {
            rest.push(meta_of(cs.last()))
        } else {
            rest
        }
    }
}

} // verus!
