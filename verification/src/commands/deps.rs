//! `ctx deps`: the import tree of a file, traced depth-first through local
//! imports. Reading files and finding them on disk are left to the caller:
//! the walk says, one step at a time, what it needs next.
use vstd::prelude::*;
use crate::paths::{compare_paths, path_order_of};
use crate::text::{chars_of, decimal, push_decimal, push_repeat, push_str, repeat, starts_with, starts_with_exec, string_of};
use crate::ts::{extract_imports, grammar_accepted_of, is_parse_of, lang_of_path, parse, ImportInfo, Lang, ParseError, SyntaxTree};

verus! {

/// The options of `ctx deps`.
pub struct DepsArgs {
    /// File to trace dependencies for.
    pub file: String,
    /// Maximum depth of dependency traversal.
    pub max_depth: usize,
    /// Only show external (package) imports.
    pub external_only: bool,
    /// Only show local (relative) imports.
    pub local_only: bool,
}

/// An import as plain values: path, kind, line.
pub type ImportView = (Seq<char>, Seq<char>, int);

pub open spec fn import_view(x: ImportInfo) -> ImportView {
    (x.path@, x.kind@, x.line as int)
}

/// A local import names a path: it starts with `.` or `/`.
pub open spec fn is_local(path: Seq<char>) -> bool {
    starts_with(path, "."@) || starts_with(path, "/"@)
}

/// Whether an import is shown under the `--external` and `--local` options.
pub open spec fn shows_import(path: Seq<char>, external_only: bool, local_only: bool) -> bool {
    !(external_only && is_local(path)) && !(local_only && !is_local(path))
}

/// The imports shown, in order.
pub open spec fn shown_imports(imports: Seq<ImportView>, external_only: bool, local_only: bool) -> Seq<ImportView>
    decreases imports.len(),
{
    if imports.len() == 0 {
        seq![]
    } else {
        let prev = shown_imports(imports.drop_last(), external_only, local_only);
        if shows_import(imports.last().0, external_only, local_only) { prev.push(imports.last()) } else { prev }
    }
}

/// The line of one import at `depth`: indented, with its connector (`└──` for
/// the last of its file), path, kind and 1-based line.
pub open spec fn import_line(depth: nat, last: bool, imp: ImportView) -> Seq<char> {
    repeat("  "@, depth) + (if last { "└──"@ } else { "├──"@ }) + seq![' '] + imp.0 + " ("@ + imp.1 + ", line "@
        + decimal((imp.2 + 1) as nat) + ")\n"@
}

/// A file being listed: its path, depth, the imports shown and how many of
/// them were listed.
pub struct DepsFrame {
    pub file: String,
    pub depth: usize,
    pub imports: Vec<ImportInfo>,
    pub next: usize,
}

/// What the walk needs next.
pub enum DepsAction {
    /// The content of this file (`None` when it cannot be read).
    Read(String),
    /// Which candidates of `import_candidates` for this import of this file
    /// exist, resolved with `resolve_import`.
    Resolve(String, String),
    /// Nothing: call `step` again.
    Continue,
    /// The walk is over; the listing.
    Done(String),
    /// A file could not be parsed.
    Fail(ParseError),
}

/// The depth-first walk of `ctx deps`.
pub struct DepsWalk {
    pub max_depth: usize,
    pub external_only: bool,
    pub local_only: bool,
    pub visited: Vec<String>,
    pub stack: Vec<DepsFrame>,
    pub out: Vec<char>,
    /// The file whose content was asked for, and its depth.
    pub reading: Option<(String, usize)>,
    /// The depth of the import being resolved.
    pub resolving: Option<usize>,
}

/// Whether a file (equal as a path) was visited.
pub open spec fn was_visited(visited: Seq<String>, f: Seq<char>) -> bool {
    exists|i: int| 0 <= i < visited.len() && path_order_of(visited[i]@, f) == 0
}

impl DepsWalk {
    /// The shape every state keeps: frames are within the depth limit, their
    /// counts within their imports, and every line number can be shown.
    pub open spec fn wf(&self) -> bool {
        &&& (self.reading matches Some((f, d)) ==> d <= self.max_depth)
        &&& (self.resolving matches Some(d) ==> d <= self.max_depth)
        &&& forall|i: int| 0 <= i < self.stack@.len() ==> {
            &&& (#[trigger] self.stack@[i]).next <= self.stack@[i].imports@.len()
            &&& self.stack@[i].depth <= self.max_depth
            &&& forall|k: int| 0 <= k < self.stack@[i].imports@.len() ==> (#[trigger] self.stack@[i].imports@[k]).line < usize::MAX
        }
    }

    /// Starts the walk at `file` (shown as `display`): the listing gets its
    /// header and the file's content is asked for.
    pub fn new(display: &str, file: &str, max_depth: usize, external_only: bool, local_only: bool) -> (r: (DepsWalk, DepsAction))
        ensures
            r.0.wf(),
            r.0.out@ == "Dependencies for: "@ + display@ + "\n\n"@,
            r.0.visited@.len() == 1 && r.0.visited@[0]@ == file@,
            r.0.stack@.len() == 0,
            r.0.reading matches Some((f, d)) && f@ == file@ && d == 0,
            r.0.resolving is None,
            r.0.max_depth == max_depth && r.0.external_only == external_only && r.0.local_only == local_only,
            r.1 matches DepsAction::Read(f) && f@ == file@,
    {
        let mut out: Vec<char> = Vec::new();
        push_str(&mut out, "Dependencies for: ");
        push_str(&mut out, display);
        push_str(&mut out, "\n\n");
        let mut visited: Vec<String> = Vec::new();
        visited.push(file.to_owned());
        let w = DepsWalk {
            max_depth, external_only, local_only, visited, stack: Vec::new(), out,
            reading: Some((file.to_owned(), 0)), resolving: None,
        };
        (w, DepsAction::Read(file.to_owned()))
    }
}


fn is_local_exec(path: &str) -> (b: bool)
    ensures
        b == is_local(path@),
{
    let p = chars_of(path);
    starts_with_exec(&p, &chars_of(".")) || starts_with_exec(&p, &chars_of("/"))
}

/// Keeps the imports shown under the options.
fn filter_imports(imports: Vec<ImportInfo>, external_only: bool, local_only: bool) -> (r: Vec<ImportInfo>)
    ensures
        r@.map_values(|x: ImportInfo| import_view(x))
            == shown_imports(imports@.map_values(|x: ImportInfo| import_view(x)), external_only, local_only),
{
    let ghost iv = imports@.map_values(|x: ImportInfo| import_view(x));
    let mut rest = imports;
    let mut taken: Vec<ImportInfo> = Vec::new();
    while rest.len() > 0
        invariant
            rest@.map_values(|x: ImportInfo| import_view(x)) + taken@.map_values(|x: ImportInfo| import_view(x)).reverse() == iv,
        decreases rest@.len(),
    {
        let ghost r0 = rest@.map_values(|x: ImportInfo| import_view(x));
        let ghost t0 = taken@.map_values(|x: ImportInfo| import_view(x));
        let x = rest.pop().unwrap();
        let ghost xv = import_view(x);
        taken.push(x);
        assert(rest@.map_values(|x: ImportInfo| import_view(x)) == r0.drop_last());
        assert(taken@.map_values(|x: ImportInfo| import_view(x)) == t0.push(xv));
        assert(r0 == r0.drop_last().push(xv));
        assert(t0.push(xv).reverse() == seq![xv] + t0.reverse());
    }
    assert(rest@.map_values(|x: ImportInfo| import_view(x)) =~= Seq::<ImportView>::empty());
    let mut out: Vec<ImportInfo> = Vec::new();
    let n = taken.len();
    let mut k: usize = 0;
    while taken.len() > 0
        invariant
            k + taken@.len() == n,
            n == iv.len(),
            taken@.map_values(|x: ImportInfo| import_view(x)).reverse() == iv.skip(k as int),
            out@.map_values(|x: ImportInfo| import_view(x)) == shown_imports(iv.take(k as int), external_only, local_only),
        decreases taken@.len(),
    {
        let ghost t0 = taken@.map_values(|x: ImportInfo| import_view(x));
        let x = taken.pop().unwrap();
        let ghost xv = import_view(x);
        assert(t0 == taken@.map_values(|x: ImportInfo| import_view(x)).push(xv));
        assert(t0.reverse()[0] == xv);
        assert(iv.skip(k as int)[0] == iv[k as int]);
        assert(taken@.map_values(|x: ImportInfo| import_view(x)).reverse() == iv.skip(k + 1)) by {
            assert(t0.reverse().drop_first() == taken@.map_values(|x: ImportInfo| import_view(x)).reverse());
            assert(iv.skip(k as int).drop_first() == iv.skip(k + 1));
        }
        assert(iv.take(k + 1).drop_last() == iv.take(k as int));
        assert(iv.take(k + 1).last() == xv);
        let keep = {
            let local = is_local_exec(x.path.as_str());
            !(external_only && local) && !(local_only && !local)
        };
        let ghost o0 = out@.map_values(|x: ImportInfo| import_view(x));
        if keep {
            out.push(x);
            assert(out@.map_values(|x: ImportInfo| import_view(x)) == o0.push(xv));
        }
        k = k + 1;
    }
    assert(iv.take(n as int) == iv);
    out
}

/// The imports a parse of `content` gives, as shown under the options.
pub open spec fn shown_imports_of(t: SyntaxTree, content: Seq<char>, lang: Lang, external_only: bool, local_only: bool)
    -> Seq<ImportView> {
    shown_imports(t.imports_upto(content, lang, t.len() as int), external_only, local_only)
}

impl DepsWalk {
    /// Takes the content of the file that was asked for. When it was read and
    /// its language is known, the imports shown of its tree become a new frame;
    /// a grammar that is not accepted, or a line that could not be numbered,
    /// ends the walk with `Fail`.
    pub fn on_content(&mut self, content: Option<String>) -> (r: DepsAction)
        requires
            old(self).wf(),
            old(self).reading is Some,
        ensures
            final(self).wf(),
            final(self).reading is None,
            final(self).resolving == old(self).resolving,
            final(self).visited == old(self).visited,
            final(self).out == old(self).out,
            final(self).max_depth == old(self).max_depth,
            final(self).external_only == old(self).external_only,
            final(self).local_only == old(self).local_only,
            ({
                let (f, d) = old(self).reading->0;
                if content is None || lang_of_path(f@) is None {
                    &&& r is Continue
                    &&& final(self).stack == old(self).stack
                } else if !grammar_accepted_of(lang_of_path(f@)->0) {
                    &&& r == DepsAction::Fail(ParseError::Language)
                    &&& final(self).stack == old(self).stack
                } else {
                    exists|t: SyntaxTree| #![trigger is_parse_of(t, content->0@, lang_of_path(f@)->0)] {
                        let shown = shown_imports_of(t, content->0@, lang_of_path(f@)->0, old(self).external_only,
                            old(self).local_only);
                        &&& is_parse_of(t, content->0@, lang_of_path(f@)->0)
                        &&& (exists|q: int| 0 <= q < shown.len() && (#[trigger] shown[q]).2 == usize::MAX) ==> {
                            &&& r == DepsAction::Fail(ParseError::Parse)
                            &&& final(self).stack == old(self).stack
                        }
                        &&& !(exists|q: int| 0 <= q < shown.len() && (#[trigger] shown[q]).2 == usize::MAX) ==> {
                            &&& r is Continue
                            &&& final(self).stack@.len() == old(self).stack@.len() + 1
                            &&& final(self).stack@.drop_last() == old(self).stack@
                            &&& final(self).stack@.last().file@ == f@
                            &&& final(self).stack@.last().depth == d
                            &&& final(self).stack@.last().next == 0
                            &&& final(self).stack@.last().imports@.map_values(|x: ImportInfo| import_view(x)) == shown
                        }
                    }
                }
            }),
    {
        let (file, depth) = self.reading.take().unwrap();
        let c = match content {
            Some(c) => c,
            None => { return DepsAction::Continue; },
        };
        let lang = match Lang::from_path(file.as_str()) {
            Some(l) => l,
            None => { return DepsAction::Continue; },
        };
        let tree = match parse(c.as_str(), lang) {
            Ok(t) => t,
            Err(e) => { return DepsAction::Fail(e); },
        };
        let imports = extract_imports(&tree, c.as_str(), lang);
        let ghost all = tree.imports_upto(c@, lang, tree.len() as int);
        assert(imports@.map_values(|x: ImportInfo| import_view(x)) == all);
        let shown = filter_imports(imports, self.external_only, self.local_only);
        let mut numbered = true;
        for k in 0..shown.len()
            invariant
                numbered <==> forall|q: int| 0 <= q < k ==> (#[trigger] shown@[q]).line < usize::MAX,
        {
            if shown[k].line == usize::MAX {
                numbered = false;
            }
        }
        let ghost sv = shown@.map_values(|x: ImportInfo| import_view(x));
        proof {
            assert(sv == shown_imports_of(tree, c@, lang, self.external_only, self.local_only));
            assert((exists|q: int| 0 <= q < sv.len() && (#[trigger] sv[q]).2 == usize::MAX) <==> !numbered) by {
                if !numbered {
                    let q = choose|q: int| 0 <= q < shown@.len() && !((#[trigger] shown@[q]).line < usize::MAX);
                    assert(sv[q].2 == usize::MAX);
                }
                if exists|q: int| 0 <= q < sv.len() && (#[trigger] sv[q]).2 == usize::MAX {
                    let q = choose|q: int| 0 <= q < sv.len() && (#[trigger] sv[q]).2 == usize::MAX;
                    assert(shown@[q].line == usize::MAX);
                }
            }
            assert(is_parse_of(tree, c@, lang));
        }
        if !numbered {
            return DepsAction::Fail(ParseError::Parse);
        }
        let ghost old_stack = self.stack@;
        self.stack.push(DepsFrame { file, depth, imports: shown, next: 0 });
        assert(self.stack@.drop_last() == old_stack);
        DepsAction::Continue
    }
}


fn push_import_line(out: &mut Vec<char>, depth: usize, last: bool, imp: &ImportInfo)
    requires
        imp.line < usize::MAX,
    ensures
        final(out)@ == old(out)@ + import_line(depth as nat, last, import_view(*imp)),
{
    let unit = chars_of("  ");
    push_repeat(out, &unit, depth);
    push_str(out, if last { "└──" } else { "├──" });
    out.push(' ');
    push_str(out, imp.path.as_str());
    push_str(out, " (");
    push_str(out, imp.kind.as_str());
    push_str(out, ", line ");
    push_decimal(out, imp.line + 1);
    push_str(out, ")\n");
}

impl DepsWalk {
    /// One step of the walk: ends it when no file is being listed, leaves a
    /// file whose imports are all listed, or lists the next import of the
    /// innermost file and, for a local one above the depth limit, asks for it
    /// to be resolved.
    #[verifier::rlimit(40)]
    pub fn step(&mut self) -> (r: DepsAction)
        requires
            old(self).wf(),
            old(self).reading is None,
            old(self).resolving is None,
        ensures
            final(self).wf(),
            final(self).reading is None,
            final(self).visited == old(self).visited,
            final(self).max_depth == old(self).max_depth,
            final(self).external_only == old(self).external_only,
            final(self).local_only == old(self).local_only,
            old(self).stack@.len() == 0 ==> {
                &&& r matches DepsAction::Done(s) && s@ == old(self).out@
                &&& final(self).stack == old(self).stack
                &&& final(self).out == old(self).out
                &&& final(self).resolving is None
            },
            old(self).stack@.len() > 0 ==> {
                let top = old(self).stack@.last();
                if top.next >= top.imports@.len() {
                    &&& r is Continue
                    &&& final(self).stack@ == old(self).stack@.drop_last()
                    &&& final(self).out == old(self).out
                    &&& final(self).resolving is None
                } else {
                    let imp = top.imports@[top.next as int];
                    let deeper = is_local(imp.path@) && top.depth < old(self).max_depth;
                    &&& final(self).out@ == old(self).out@ + import_line(top.depth as nat,
                        top.next == top.imports@.len() - 1, import_view(imp))
                    &&& final(self).stack@.drop_last() == old(self).stack@.drop_last()
                    &&& final(self).stack@.len() == old(self).stack@.len()
                    &&& final(self).stack@.last().file == top.file
                    &&& final(self).stack@.last().depth == top.depth
                    &&& final(self).stack@.last().imports == top.imports
                    &&& final(self).stack@.last().next == top.next + 1
                    &&& (deeper ==> (r matches DepsAction::Resolve(p, f) && p@ == imp.path@ && f@ == top.file@
                        && final(self).resolving == Some((top.depth + 1) as usize)))
                    &&& (!deeper ==> r is Continue && final(self).resolving is None)
                }
            },
    {
        if self.stack.len() == 0 {
            return DepsAction::Done(string_of(&self.out));
        }
        let ghost s0 = self.stack@;
        let mut top = self.stack.pop().unwrap();
        assert(self.stack@ == s0.drop_last());
        assert(top == s0.last());
        if top.next >= top.imports.len() {
            return DepsAction::Continue;
        }
        let n = top.imports.len();
        let depth = top.depth;
        let next = top.next;
        let imp = &top.imports[next];
        assert(s0.last().imports@[next as int].line < usize::MAX);
        push_import_line(&mut self.out, depth, next == n - 1, imp);
        let deeper = is_local_exec(imp.path.as_str()) && depth < self.max_depth;
        let action = if deeper {
            self.resolving = Some(depth + 1);
            DepsAction::Resolve(imp.path.clone(), top.file.clone())
        } else {
            DepsAction::Continue
        };
        top.next = next + 1;
        self.stack.push(top);
        assert(self.stack@.drop_last() == s0.drop_last());
        action
    }

    /// Takes the import resolved (or `None`): a file within the depth limit
    /// that was not visited yet is visited next, and its content asked for.
    pub fn on_resolved(&mut self, resolved: Option<String>) -> (r: DepsAction)
        requires
            old(self).wf(),
            old(self).reading is None,
            old(self).resolving is Some,
        ensures
            final(self).wf(),
            final(self).resolving is None,
            final(self).stack == old(self).stack,
            final(self).out == old(self).out,
            final(self).max_depth == old(self).max_depth,
            final(self).external_only == old(self).external_only,
            final(self).local_only == old(self).local_only,
            ({
                let d = old(self).resolving->0;
                match resolved {
                    None => (r is Continue && final(self).visited == old(self).visited && final(self).reading is None),
                    Some(p) => if d > old(self).max_depth || was_visited(old(self).visited@, p@) {
                        r is Continue && final(self).visited == old(self).visited && final(self).reading is None
                    } else {
                        &&& r matches DepsAction::Read(f) && f@ == p@
                        &&& final(self).visited@.len() == old(self).visited@.len() + 1
                        &&& final(self).visited@.drop_last() == old(self).visited@
                        &&& final(self).visited@.last()@ == p@
                        &&& final(self).reading matches Some((f, dd)) && f@ == p@ && dd == d
                    },
                }
            }),
    {
        let d = self.resolving.take().unwrap();
        let p = match resolved {
            None => { return DepsAction::Continue; },
            Some(p) => p,
        };
        if d > self.max_depth {
            return DepsAction::Continue;
        }
        let mut seen = false;
        for i in 0..self.visited.len()
            invariant
                seen <==> exists|j: int| 0 <= j < i && path_order_of(self.visited@[j]@, p@) == 0,
        {
            if compare_paths(self.visited[i].as_str(), p.as_str()) == 0 {
                seen = true;
            }
        }
        if seen {
            return DepsAction::Continue;
        }
        let ghost v0 = self.visited@;
        self.visited.push(p.clone());
        assert(self.visited@.drop_last() == v0);
        self.reading = Some((p.clone(), d));
        DepsAction::Read(p)
    }
}


/// Starts `ctx deps` on the file of `args`, whose canonical path is
/// `canonical`: the header names the file as given, the walk starts at its
/// canonical path.
pub fn run(args: &DepsArgs, canonical: &str) -> (r: (DepsWalk, DepsAction))
    ensures
        r.0.wf(),
        r.0.out@ == "Dependencies for: "@ + args.file@ + "\n\n"@,
        r.0.visited@.len() == 1 && r.0.visited@[0]@ == canonical@,
        r.0.stack@.len() == 0,
        r.0.reading matches Some((f, d)) && f@ == canonical@ && d == 0,
        r.0.resolving is None,
        r.0.max_depth == args.max_depth && r.0.external_only == args.external_only && r.0.local_only == args.local_only,
        r.1 matches DepsAction::Read(f) && f@ == canonical@,
{
    DepsWalk::new(args.file.as_str(), canonical, args.max_depth, args.external_only, args.local_only)
}

} // verus!
