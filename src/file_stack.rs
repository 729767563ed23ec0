use vstd::prelude::*;

verus! {

/// One component of a file path, as the platform splits it.
#[derive(Debug)]
pub enum PathComponent {
    /// A drive or share prefix.
    Prefix(Vec<u8>),
    RootDir,
    /// `.`
    CurDir,
    /// `..`
    ParentDir,
    Normal(Vec<u8>),
}

/// A path component as a mathematical value.
pub enum Comp {
    Prefix(Seq<u8>),
    RootDir,
    CurDir,
    ParentDir,
    Normal(Seq<u8>),
}

pub open spec fn comp_view(c: PathComponent) -> Comp {
    match c {
        PathComponent::Prefix(b) => Comp::Prefix(b@),
        PathComponent::RootDir => Comp::RootDir,
        PathComponent::CurDir => Comp::CurDir,
        PathComponent::ParentDir => Comp::ParentDir,
        PathComponent::Normal(b) => Comp::Normal(b@),
    }
}

/// A path as a sequence of component values.
pub open spec fn path_view(p: Seq<PathComponent>) -> Seq<Comp> {
    p.map_values(|c: PathComponent| comp_view(c))
}

/// The paths of a list, as values.
pub open spec fn paths_view(ps: Seq<Vec<PathComponent>>) -> Seq<Seq<Comp>> {
    ps.map_values(|p: Vec<PathComponent>| path_view(p@))
}

/// One step of normalisation: `.` is dropped, `..` removes the last normal
/// component if there is one, any other component is kept.
pub open spec fn norm_step(acc: Seq<Comp>, c: Comp) -> Seq<Comp> {
    match c {
        Comp::CurDir => acc,
        Comp::ParentDir => if acc.len() > 0 && acc.last() is Normal {
            acc.drop_last()
        } else {
            acc
        },
        _ => acc.push(c),
    }
}

/// A path with `.` and `..` resolved lexically, without consulting the file system.
pub open spec fn normalize(p: Seq<Comp>) -> Seq<Comp>
    decreases p.len(),
{
    if p.len() == 0 {
        Seq::empty()
    } else {
        norm_step(normalize(p.drop_last()), p.last())
    }
}

/// The directory of a file path: the path without its last normal component.
pub open spec fn parent(p: Seq<Comp>) -> Seq<Comp> {
    if p.len() > 0 && p.last() is Normal {
        p.drop_last()
    } else {
        p
    }
}

fn bytes_eq(a: &Vec<u8>, b: &Vec<u8>) -> (r: bool)
    ensures
        r == (a@ == b@),
{
    if a.len() != b.len() {
        return false;
    }
    let mut i: usize = 0;
    while i < a.len()
        invariant
            0 <= i <= a@.len(),
            a@.len() == b@.len(),
            forall|j: int| 0 <= j < i ==> a@[j] == b@[j],
        decreases a@.len() - i,
    {
        if a[i] != b[i] {
            return false;
        }
        i = i + 1;
    }
    assert(a@ =~= b@);
    true
}

fn copy_bytes(a: &Vec<u8>) -> (r: Vec<u8>)
    ensures
        r@ == a@,
{
    let mut r: Vec<u8> = Vec::new();
    let mut i: usize = 0;
    while i < a.len()
        invariant
            0 <= i <= a@.len(),
            r@ == a@.take(i as int),
        decreases a@.len() - i,
    {
        r.push(a[i]);
        assert(a@.take(i + 1) == a@.take(i as int).push(a@[i as int]));
        i = i + 1;
    }
    assert(a@.take(i as int) == a@);
    r
}

fn component_eq(a: &PathComponent, b: &PathComponent) -> (r: bool)
    ensures
        r == (comp_view(*a) == comp_view(*b)),
{
    match (a, b) {
        (PathComponent::Prefix(x), PathComponent::Prefix(y)) => bytes_eq(x, y),
        (PathComponent::RootDir, PathComponent::RootDir) => true,
        (PathComponent::CurDir, PathComponent::CurDir) => true,
        (PathComponent::ParentDir, PathComponent::ParentDir) => true,
        (PathComponent::Normal(x), PathComponent::Normal(y)) => bytes_eq(x, y),
        _ => false,
    }
}

fn copy_component(a: &PathComponent) -> (r: PathComponent)
    ensures
        comp_view(r) == comp_view(*a),
{
    match a {
        PathComponent::Prefix(x) => PathComponent::Prefix(copy_bytes(x)),
        PathComponent::RootDir => PathComponent::RootDir,
        PathComponent::CurDir => PathComponent::CurDir,
        PathComponent::ParentDir => PathComponent::ParentDir,
        PathComponent::Normal(x) => PathComponent::Normal(copy_bytes(x)),
    }
}

/// Whether two paths have the same components.
pub fn path_eq(a: &Vec<PathComponent>, b: &Vec<PathComponent>) -> (r: bool)
    ensures
        r == (path_view(a@) == path_view(b@)),
{
    if a.len() != b.len() {
        return false;
    }
    let mut i: usize = 0;
    while i < a.len()
        invariant
            0 <= i <= a@.len(),
            a@.len() == b@.len(),
            forall|j: int| 0 <= j < i ==> comp_view(#[trigger] a@[j]) == comp_view(b@[j]),
        decreases a@.len() - i,
    {
        if !component_eq(&a[i], &b[i]) {
            assert(path_view(a@)[i as int] != path_view(b@)[i as int]);
            return false;
        }
        i = i + 1;
    }
    assert(path_view(a@) =~= path_view(b@));
    true
}

/// A copy of a path.
pub fn copy_path(a: &Vec<PathComponent>) -> (r: Vec<PathComponent>)
    ensures
        path_view(r@) == path_view(a@),
{
    let mut r: Vec<PathComponent> = Vec::new();
    let mut i: usize = 0;
    while i < a.len()
        invariant
            0 <= i <= a@.len(),
            path_view(r@) == path_view(a@.take(i as int)),
        decreases a@.len() - i,
    {
        let ghost before = path_view(r@);
        let c = copy_component(&a[i]);
        r.push(c);
        assert(path_view(r@) =~= before.push(comp_view(c)));
        assert(path_view(a@.take(i + 1)) =~= path_view(a@.take(i as int)).push(comp_view(a@[i as int])));
        i = i + 1;
    }
    assert(a@.take(i as int) == a@);
    r
}

/// Whether `p` is one of the paths of `ps`.
pub fn contains_path(ps: &Vec<Vec<PathComponent>>, p: &Vec<PathComponent>) -> (r: bool)
    ensures
        r == paths_view(ps@).contains(path_view(p@)),
{
    let mut i: usize = 0;
    while i < ps.len()
        invariant
            0 <= i <= ps@.len(),
            forall|j: int| 0 <= j < i ==> #[trigger] paths_view(ps@)[j] != path_view(p@),
        decreases ps@.len() - i,
    {
        if path_eq(&ps[i], p) {
            assert(paths_view(ps@)[i as int] == path_view(p@));
            return true;
        }
        i = i + 1;
    }
    false
}

/// Resolves `.` and `..` in a path lexically; the path need not exist.
pub fn normalize_path(path: &Vec<PathComponent>) -> (r: Vec<PathComponent>)
    ensures
        path_view(r@) == normalize(path_view(path@)),
{
    let mut r: Vec<PathComponent> = Vec::new();
    let mut i: usize = 0;
    while i < path.len()
        invariant
            0 <= i <= path@.len(),
            path_view(r@) == normalize(path_view(path@.take(i as int))),
        decreases path@.len() - i,
    {
        let ghost before = path_view(r@);
        assert(path_view(path@.take(i + 1)).drop_last() == path_view(path@.take(i as int)));
        assert(path_view(path@.take(i + 1)).last() == comp_view(path@[i as int]));
        match &path[i] {
            PathComponent::CurDir => {},
            PathComponent::ParentDir => {
                if r.len() > 0 {
                    let last_normal = match &r[r.len() - 1] {
                        PathComponent::Normal(_) => true,
                        _ => false,
                    };
                    if last_normal {
                        r.pop();
                        assert(path_view(r@) =~= before.drop_last());
                    }
                }
            },
            c => {
                let c2 = copy_component(c);
                r.push(c2);
                assert(path_view(r@) =~= before.push(comp_view(*c)));
            },
        }
        i = i + 1;
    }
    assert(path@.take(i as int) == path@);
    r
}


/// A directive of a source file that names another file to read, with the
/// place of the directive.
pub struct IncludeDirective {
    /// The path as written, relative to the directory of the current file.
    pub path: Vec<PathComponent>,
    pub file_id: usize,
    pub location_start: usize,
    pub location_end: usize,
}

/// The target of a directive is not an existing file.
#[derive(Debug)]
pub struct IncludeError {
    pub path: Vec<PathComponent>,
    pub file_id: usize,
    pub location_start: usize,
    pub location_end: usize,
}

/// The files still to parse, depth first, and those handed out already.
pub struct FileStack {
    current_location: Option<Vec<PathComponent>>,
    black_paths: Vec<Vec<PathComponent>>,
    user_inputs: Vec<Vec<PathComponent>>,
    stack: Vec<Vec<PathComponent>>,
}

impl FileStack {
    /// The paths handed out already.
    pub closed spec fn spec_black(&self) -> Seq<Seq<Comp>> {
        paths_view(self.black_paths@)
    }

    /// The paths still to hand out, the next one last.
    pub closed spec fn spec_stack(&self) -> Seq<Seq<Comp>> {
        paths_view(self.stack@)
    }

    /// The files given at the start.
    pub closed spec fn spec_user_inputs(&self) -> Seq<Seq<Comp>> {
        paths_view(self.user_inputs@)
    }

    /// The directory of the file handed out last, if any.
    pub closed spec fn spec_location(&self) -> Option<Seq<Comp>> {
        match self.current_location {
            Some(p) => Some(path_view(p@)),
            None => None,
        }
    }

    /// A stack holding the given files, which the caller has found to exist.
    pub fn new(paths: Vec<Vec<PathComponent>>) -> (r: FileStack)
        ensures
            r.spec_stack() == paths_view(paths@),
            r.spec_user_inputs() == paths_view(paths@),
            r.spec_black().len() == 0,
            r.spec_location() is None,
    {
        let mut user_inputs: Vec<Vec<PathComponent>> = Vec::new();
        let mut i: usize = 0;
        while i < paths.len()
            invariant
                0 <= i <= paths@.len(),
                paths_view(user_inputs@) == paths_view(paths@.take(i as int)),
            decreases paths@.len() - i,
        {
            let ghost before = paths_view(user_inputs@);
            let p = copy_path(&paths[i]);
            user_inputs.push(p);
            assert(paths_view(user_inputs@) =~= before.push(path_view(p@)));
            assert(paths_view(paths@.take(i + 1)) =~= paths_view(paths@.take(i as int)).push(path_view(paths@[i as int]@)));
            i = i + 1;
        }
        assert(paths@.take(i as int) == paths@);
        FileStack { current_location: None, black_paths: Vec::new(), user_inputs, stack: paths }
    }

    /// The file that a directive of the current file names: the directive's
    /// path taken from the directory of the current file, normalised.
    pub fn resolve_include(&self, path: &Vec<PathComponent>) -> (r: Vec<PathComponent>)
        requires
            self.spec_location() is Some,
        ensures
            path_view(r@) == normalize(self.spec_location()->Some_0 + path_view(path@)),
    {
        let loc = match &self.current_location {
            Some(l) => l,
            None => {
                proof { assert(false); }
                path
            },
        };
        let mut joined = copy_path(loc);
        let mut i: usize = 0;
        let ghost base = path_view(loc@);
        while i < path.len()
            invariant
                0 <= i <= path@.len(),
                path_view(joined@) == base + path_view(path@.take(i as int)),
            decreases path@.len() - i,
        {
            let ghost before = path_view(joined@);
            let c = copy_component(&path[i]);
            joined.push(c);
            assert(path_view(joined@) =~= before.push(comp_view(c)));
            assert(path_view(path@.take(i + 1)) =~= path_view(path@.take(i as int)).push(comp_view(path@[i as int])));
            i = i + 1;
        }
        assert(path@.take(i as int) == path@);
        normalize_path(&joined)
    }

    /// Records a directive of the current file. `target_is_file` tells whether
    /// the path that `resolve_include` gives for it names an existing file.
    /// A target that exists is queued unless it was handed out already; one
    /// that does not gives an error that carries the directive's path and place.
    pub fn add_include(&mut self, directive: &IncludeDirective, target_is_file: bool) -> (r: Result<(), IncludeError>)
        requires
            old(self).spec_location() is Some,
        ensures
            final(self).spec_black() == old(self).spec_black(),
            final(self).spec_user_inputs() == old(self).spec_user_inputs(),
            final(self).spec_location() == old(self).spec_location(),
            target_is_file <==> r is Ok,
            ({
                let target = normalize(old(self).spec_location()->Some_0 + path_view(directive.path@));
                target_is_file && !old(self).spec_black().contains(target) ==> final(self).spec_stack() == old(self).spec_stack().push(target)
            }),
            ({
                let target = normalize(old(self).spec_location()->Some_0 + path_view(directive.path@));
                !target_is_file || old(self).spec_black().contains(target) ==> final(self).spec_stack() == old(self).spec_stack()
            }),
            r matches Err(e) ==> path_view(e.path@) == path_view(directive.path@) && e.file_id == directive.file_id
                && e.location_start == directive.location_start && e.location_end == directive.location_end,
    {
        if target_is_file {
            let path = self.resolve_include(&directive.path);
            if !contains_path(&self.black_paths, &path) {
                let ghost before = paths_view(self.stack@);
                self.stack.push(path);
                assert(paths_view(self.stack@) =~= before.push(path_view(path@)));
            }
            Ok(())
        } else {
            Err(IncludeError {
                path: copy_path(&directive.path),
                file_id: directive.file_id,
                location_start: directive.location_start,
                location_end: directive.location_end,
            })
        }
    }

    /// Hands out the next file to parse: pops the stack until a path not
    /// handed out before comes up, records it as handed out, and makes its
    /// directory the current location. `None` once the stack is exhausted.
    pub fn take_next(&mut self) -> (r: Option<Vec<PathComponent>>)
        ensures
            final(self).spec_user_inputs() == old(self).spec_user_inputs(),
            r is None ==> final(self).spec_stack().len() == 0 && final(self).spec_black() == old(self).spec_black()
                && final(self).spec_location() == old(self).spec_location()
                && forall|i: int| 0 <= i < old(self).spec_stack().len() ==> old(self).spec_black().contains(#[trigger] old(self).spec_stack()[i]),
            r matches Some(p) ==> {
                &&& handed_out(*old(self), *final(self), path_view(p@))
                &&& final(self).spec_location() == Some(parent(path_view(p@)))
                &&& final(self).spec_stack().len() < old(self).spec_stack().len()
                &&& old(self).spec_stack()[final(self).spec_stack().len() as int] == path_view(p@)
                &&& final(self).spec_stack() == old(self).spec_stack().take(final(self).spec_stack().len() as int)
                &&& forall|i: int| final(self).spec_stack().len() < i < old(self).spec_stack().len()
                    ==> old(self).spec_black().contains(#[trigger] old(self).spec_stack()[i])
            },
    {
        let ghost s0 = paths_view(self.stack@);
        loop
            invariant
                self.user_inputs == old(self).user_inputs,
                self.black_paths == old(self).black_paths,
                self.current_location == old(self).current_location,
                paths_view(self.stack@) == s0.take(paths_view(self.stack@).len() as int),
                paths_view(self.stack@).len() <= s0.len(),
                s0 == paths_view(old(self).stack@),
                forall|i: int| paths_view(self.stack@).len() <= i < s0.len()
                    ==> paths_view(self.black_paths@).contains(#[trigger] s0[i]),
            decreases self.stack@.len(),
        {
            let ghost before = paths_view(self.stack@);
            match self.stack.pop() {
                None => {
                    return None;
                },
                Some(file_path) => {
                    assert(paths_view(self.stack@) =~= before.drop_last());
                    assert(before.last() == path_view(file_path@));
                    assert(s0[paths_view(self.stack@).len() as int] == before.last());
                    assert(paths_view(self.stack@) =~= s0.take(paths_view(self.stack@).len() as int));
                    if !contains_path(&self.black_paths, &file_path) {
                        let mut location = copy_path(&file_path);
                        let last_normal = location.len() > 0 && match &location[location.len() - 1] {
                            PathComponent::Normal(_) => true,
                            _ => false,
                        };
                        if last_normal {
                            let ghost lv = path_view(location@);
                            location.pop();
                            assert(path_view(location@) =~= lv.drop_last());
                        }
                        self.current_location = Some(location);
                        let copy = copy_path(&file_path);
                        let ghost bl = paths_view(self.black_paths@);
                        self.black_paths.push(copy);
                        assert(paths_view(self.black_paths@) =~= bl.push(path_view(file_path@)));
                        return Some(file_path);
                    }
                },
            }
        }
    }

    /// Whether a file has been handed out, so that directives can be resolved.
    pub fn has_location(&self) -> (r: bool)
        ensures
            r == self.spec_location() is Some,
    {
        self.current_location.is_some()
    }

    /// Whether the path is one of the files given at the start.
    pub fn is_user_input(&self, path: &Vec<PathComponent>) -> (r: bool)
        ensures
            r == self.spec_user_inputs().contains(path_view(path@)),
    {
        contains_path(&self.user_inputs, path)
    }
}

/// `p` is handed out between the states `before` and `after`: it was not
/// handed out before, and is recorded as handed out after.
pub open spec fn handed_out(before: FileStack, after: FileStack, p: Seq<Comp>) -> bool {
    &&& !before.spec_black().contains(p)
    &&& after.spec_black() == before.spec_black().push(p)
}

/// A file is handed to the parser once at most: once `take_next` has handed
/// out `p`, no later call hands it out again, as long as the record of
/// handed-out paths only grows in between, which every method ensures.
pub proof fn lemma_file_handed_out_once(s0: FileStack, s1: FileStack, s2: FileStack, s3: FileStack, p: Seq<Comp>, q: Seq<Comp>)
    requires
        handed_out(s0, s1, p),
        forall|x: Seq<Comp>| s1.spec_black().contains(x) ==> s2.spec_black().contains(x),
        handed_out(s2, s3, q),
    ensures
        q != p,
{
    assert(s1.spec_black()[s0.spec_black().len() as int] == p);
    assert(s1.spec_black().contains(p));
}

} // verus!
