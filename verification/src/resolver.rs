//! Cross-reference resolution: a registry of declared names that accumulates
//! across files, duplicate detection, and unresolved-reference detection.

use crate::ast::ArrayDecl;
use crate::ast::Body;
use crate::ast::BodyEntry;
use crate::ast::BodyEntryKind;
use crate::ast::Declaration;
use crate::ast::DeclarationKind;
use crate::ast::File;
use crate::ast::ListItemKind;
use crate::error::NmlError;
use crate::span::Span;
use crate::types::Value;
use vstd::prelude::*;

verus! {

use vstd::string::StringExecFns;

broadcast use vstd::std_specs::vec::axiom_vec_index_decreases;

/// One registered declaration: its keyword (with `[]` prefixed for array
/// declarations), its name, and its span.
#[derive(Debug, Clone)]
pub struct DeclInfo {
    pub keyword: String,
    pub name: String,
    pub span: Span,
}

/// All registrations of one name, in registration order.
struct DeclGroup {
    name: String,
    decls: Vec<DeclInfo>,
}

/// The registered data of one declaration, as plain values.
pub open spec fn decl_triple(info: DeclInfo) -> (Seq<char>, Seq<char>, Span) {
    (info.keyword@, info.name@, info.span)
}

/// The keyword, name, and span that registering a declaration records.
pub open spec fn decl_record(d: Declaration) -> (Seq<char>, Seq<char>, Span) {
    match d.kind {
        DeclarationKind::Block(b) => (b.keyword.name@, b.name.name@, d.span),
        DeclarationKind::Array(a) => ("[]"@ + a.item_keyword.name@, a.name.name@, d.span),
    }
}

/// The records of the first `i` declarations that carry the given name.
pub open spec fn records_for(decls: Seq<Declaration>, i: int, nm: Seq<char>) -> Seq<
    (Seq<char>, Seq<char>, Span),
>
    decreases i,
{
    if i <= 0 || i > decls.len() {
        Seq::empty()
    } else {
        records_for(decls, i - 1, nm) + if decl_record(decls[i - 1]).1 == nm {
            seq![decl_record(decls[i - 1])]
        } else {
            Seq::empty()
        }
    }
}

/// Index of the first group with the given name, or -1.
spec fn find_group(gs: Seq<DeclGroup>, nm: Seq<char>) -> int
    decreases gs.len(),
{
    if gs.len() == 0 {
        -1
    } else if gs[0].name@ == nm {
        0
    } else if find_group(gs.drop_first(), nm) == -1 {
        -1
    } else {
        find_group(gs.drop_first(), nm) + 1
    }
}

proof fn lemma_find_group(gs: Seq<DeclGroup>, nm: Seq<char>)
    ensures
        find_group(gs, nm) == -1 ==> forall|i: int| 0 <= i < gs.len() ==> gs[i].name@ != nm,
        find_group(gs, nm) != -1 ==> 0 <= find_group(gs, nm) < gs.len() && gs[find_group(
            gs,
            nm,
        )].name@ == nm && forall|i: int| 0 <= i < find_group(gs, nm) ==> gs[i].name@ != nm,
    decreases gs.len(),
{
    if gs.len() > 0 && gs[0].name@ != nm {
        lemma_find_group(gs.drop_first(), nm);
        assert(forall|i: int|
            0 <= i < gs.drop_first().len() ==> gs.drop_first()[i] == gs[i + 1]);
        if find_group(gs, nm) == -1 {
            assert forall|i: int| 0 <= i < gs.len() implies gs[i].name@ != nm by {
                if i > 0 {
                    assert(gs.drop_first()[i - 1] == gs[i]);
                }
            }
        } else {
            assert(gs[find_group(gs, nm)] == gs.drop_first()[find_group(gs, nm) - 1]);
            assert forall|i: int| 0 <= i < find_group(gs, nm) implies gs[i].name@ != nm by {
                if i > 0 {
                    assert(gs.drop_first()[i - 1] == gs[i]);
                }
            }
        }
    }
}

/// Groups with the same names in the same order resolve names identically.
proof fn lemma_find_group_same_names(a: Seq<DeclGroup>, b: Seq<DeclGroup>, nm: Seq<char>)
    requires
        a.len() == b.len(),
        forall|i: int| 0 <= i < a.len() ==> a[i].name@ == #[trigger] b[i].name@,
    ensures
        find_group(a, nm) == find_group(b, nm),
    decreases a.len(),
{
    if a.len() > 0 {
        assert(a[0].name@ == b[0].name@);
        assert(forall|i: int| 0 <= i < a.drop_first().len() ==> a.drop_first()[i] == a[i + 1]);
        assert(forall|i: int| 0 <= i < b.drop_first().len() ==> b.drop_first()[i] == b[i + 1]);
        assert forall|i: int| 0 <= i < a.drop_first().len() implies a.drop_first()[i].name@
            == #[trigger] b.drop_first()[i].name@ by {
            assert(a.drop_first()[i] == a[i + 1]);
            assert(b.drop_first()[i] == b[i + 1]);
        }
        lemma_find_group_same_names(a.drop_first(), b.drop_first(), nm);
    }
}

/// Finding a name in an extended group list: an existing name resolves as
/// before; a fresh name resolves to the appended group when it matches.
proof fn lemma_find_group_push(gs: Seq<DeclGroup>, g: DeclGroup, nm: Seq<char>)
    ensures
        find_group(gs, nm) != -1 ==> find_group(gs.push(g), nm) == find_group(gs, nm),
        find_group(gs, nm) == -1 && g.name@ == nm ==> find_group(gs.push(g), nm) == gs.len(),
        find_group(gs, nm) == -1 && g.name@ != nm ==> find_group(gs.push(g), nm) == -1,
    decreases gs.len(),
{
    if gs.len() == 0 {
        assert(gs.push(g)[0] == g);
        assert(gs.push(g).drop_first() =~= Seq::<DeclGroup>::empty());
        assert(find_group(Seq::<DeclGroup>::empty(), nm) == -1);
        assert(find_group(gs.push(g), nm) == if g.name@ == nm {
            0int
        } else {
            -1int
        });
    } else {
        let rest = gs.drop_first();
        assert(gs.push(g)[0] == gs[0]);
        assert(gs.push(g).drop_first() =~= rest.push(g));
        lemma_find_group_push(rest, g, nm);
        assert(find_group(gs.push(g).drop_first(), nm) == find_group(rest.push(g), nm));
        if gs[0].name@ == nm {
            assert(find_group(gs, nm) == 0);
            assert(find_group(gs.push(g), nm) == 0);
        } else {
            assert(find_group(gs, nm) == if find_group(rest, nm) == -1 {
                -1int
            } else {
                find_group(rest, nm) + 1
            });
            assert(find_group(gs.push(g), nm) == if find_group(rest.push(g), nm) == -1 {
                -1int
            } else {
                find_group(rest.push(g), nm) + 1
            });
        }
    }
    if find_group(gs, nm) == -1 && g.name@ == nm {
        if gs.len() == 0 {
            assert(find_group(gs.push(g), nm) == 0);
        } else {
            let rest = gs.drop_first();
            assert(gs[0].name@ != nm);
            lemma_find_group(rest, nm);
            assert(find_group(rest, nm) == -1);
            assert(find_group(rest.push(g), nm) == rest.len());
            assert(rest.len() == gs.len() - 1);
            assert(find_group(gs.push(g), nm) == find_group(rest.push(g), nm) + 1);
        }
        assert(find_group(gs.push(g), nm) == gs.len());
    }
}

/// The keyword strings recognized as schema definitions.
pub open spec fn is_schema_keyword(kw: Seq<char>) -> bool {
    kw == "model"@ || kw == "trait"@ || kw == "enum"@
}

/// Whether a keyword names a schema definition (`model`, `trait`, `enum`).
pub fn is_schema_keyword_exec(kw: &str) -> (r: bool)
    ensures
        r == is_schema_keyword(kw@),
{
    crate::text::str_eq(kw, "model") || crate::text::str_eq(kw, "trait") || crate::text::str_eq(
        kw,
        "enum",
    )
}

/// Tracks named declarations for cross-reference resolution. Duplicates
/// accumulate rather than overwrite, so duplicate detection can report them.
pub struct Resolver {
    groups: Vec<DeclGroup>,
}

impl Resolver {
    /// Each name owns exactly one group, and every registration in a group
    /// carries the group's name.
    pub closed spec fn wf(&self) -> bool {
        &&& forall|i: int, j: int|
            0 <= i < j < self.groups@.len() ==> (#[trigger] self.groups@[i]).name@ != (
            #[trigger] self.groups@[j]).name@
        &&& forall|i: int, k: int|
            0 <= i < self.groups@.len() && 0 <= k < (#[trigger] self.groups@[i]).decls@.len()
                ==> (#[trigger] self.groups@[i].decls@[k]).name@ == self.groups@[i].name@
        &&& forall|i: int|
            0 <= i < self.groups@.len() ==> (#[trigger] self.groups@[i]).decls@.len() >= 1
    }

    /// The registered records of a name, in registration order, as plain
    /// values: keyword, name, span.
    pub closed spec fn entries(&self, nm: Seq<char>) -> Seq<(Seq<char>, Seq<char>, Span)> {
        let g = find_group(self.groups@, nm);
        if g == -1 {
            Seq::empty()
        } else {
            self.groups@[g].decls@.map_values(|d: DeclInfo| decl_triple(d))
        }
    }

    /// Whether a name is registered.
    pub closed spec fn knows(&self, nm: Seq<char>) -> bool {
        find_group(self.groups@, nm) != -1
    }

    pub fn new() -> (r: Self)
        ensures
            r.wf(),
            forall|nm: Seq<char>| r.entries(nm) == Seq::<(Seq<char>, Seq<char>, Span)>::empty(),
            forall|nm: Seq<char>| !r.knows(nm),
    {
        Resolver { groups: Vec::new() }
    }

    /// Index of the group holding a name, if any.
    fn find_group_exec(&self, name: &str) -> (r: Option<usize>)
        ensures
            match r {
                Some(g) => find_group(self.groups@, name@) == g as int,
                None => find_group(self.groups@, name@) == -1,
            },
    {
        proof {
            lemma_find_group(self.groups@, name@);
        }
        let mut i: usize = 0;
        while i < self.groups.len()
            invariant
                0 <= i <= self.groups@.len(),
                forall|k: int| 0 <= k < i ==> (#[trigger] self.groups@[k]).name@ != name@,
            decreases self.groups@.len() - i,
        {
            if crate::text::str_eq(self.groups[i].name.as_str(), name) {
                proof {
                    lemma_find_group(self.groups@, name@);
                    if find_group(self.groups@, name@) != i as int {
                        if find_group(self.groups@, name@) == -1 {
                            assert(self.groups@[i as int].name@ != name@);
                        } else if find_group(self.groups@, name@) < i as int {
                            assert(self.groups@[find_group(self.groups@, name@)].name@ != name@);
                        } else {
                            assert(self.groups@[i as int].name@ != name@);
                        }
                    }
                }
                return Some(i);
            }
            i += 1;
        }
        proof {
            lemma_find_group(self.groups@, name@);
            if find_group(self.groups@, name@) != -1 {
                assert(self.groups@[find_group(self.groups@, name@)].name@ != name@);
            }
        }
        None
    }

    /// Registers one declaration record under its name.
    fn register_decl(&mut self, info: DeclInfo)
        requires
            old(self).wf(),
        ensures
            final (self).wf(),
            final (self).entries(info.name@) == old(self).entries(info.name@) + seq![
                decl_triple(info),
            ],
            forall|nm: Seq<char>|
                nm != info.name@ ==> final (self).entries(nm) == old(self).entries(nm),
            forall|nm: Seq<char>|
                #[trigger] final (self).knows(nm) <==> (old(self).knows(nm) || nm == info.name@),
    {
        let ghost gs0 = self.groups@;
        let ghost tr = decl_triple(info);
        match self.find_group_exec(info.name.as_str()) {
            Some(g) => {
                proof {
                    lemma_find_group(gs0, tr.1);
                }
                let ghost dg0 = self.groups@[g as int].decls@;
                let mut grp = self.groups.remove(g);
                grp.decls.push(info);
                let ghost grp_snap = grp;
                self.groups.insert(g, grp);
                proof {
                    let gs1 = self.groups@;
                    assert(gs1 =~= gs0.update(g as int, grp_snap)) by {
                        assert(gs1 == gs0.remove(g as int).insert(g as int, grp_snap));
                        assert forall|i: int| 0 <= i < gs1.len() implies gs1[i] == gs0.update(
                            g as int,
                            grp_snap,
                        )[i] by {
                            if i < g as int {
                                assert(gs0.remove(g as int)[i] == gs0[i]);
                            } else if i > g as int {
                                assert(gs0.remove(g as int)[i - 1] == gs0[i]);
                            }
                        }
                    }
                    assert(gs1.len() == gs0.len());
                    assert(gs1[g as int] == grp_snap);
                    assert forall|i: int| 0 <= i < gs1.len() implies gs0[i].name@
                        == #[trigger] gs1[i].name@ by {
                        if i != g as int {
                            assert(gs1[i] == gs0[i]);
                        }
                    }
                    assert forall|nm: Seq<char>| true implies #[trigger] find_group(gs1, nm)
                        == find_group(gs0, nm) by {
                        lemma_find_group_same_names(gs0, gs1, nm);
                    }
                    lemma_find_group(gs0, tr.1);
                    assert(gs1[g as int].decls@ =~= dg0.push(grp_snap.decls@.last()));
                    assert(gs1[g as int].decls@.map_values(|d: DeclInfo| decl_triple(d)) =~= dg0.map_values(
                        |d: DeclInfo| decl_triple(d),
                    ) + seq![tr]);
                    assert forall|nm: Seq<char>| nm != tr.1 implies final (self).entries(nm) == old(
                        self,
                    ).entries(nm) by {
                        if find_group(gs1, nm) != -1 {
                            lemma_find_group(gs0, nm);
                            assert(gs0[find_group(gs0, nm)].name@ == nm);
                            assert(find_group(gs0, nm) != g as int);
                            assert(gs1[find_group(gs1, nm)] == gs0[find_group(gs0, nm)]);
                        }
                    }
                    assert forall|i: int, k: int|
                        0 <= i < gs1.len() && 0 <= k < (#[trigger] gs1[i]).decls@.len() implies (
                    #[trigger] gs1[i].decls@[k]).name@ == gs1[i].name@ by {
                        if i == g as int {
                            if k < dg0.len() {
                                assert(gs1[i].decls@[k] == gs0[i].decls@[k]);
                            }
                        } else {
                            assert(gs1[i] == gs0[i]);
                        }
                    }
                    assert(final (self).wf());
                }
            },
            None => {
                let mut decls: Vec<DeclInfo> = Vec::new();
                let name = info.name.clone();
                decls.push(info);
                let grp = DeclGroup { name, decls };
                let ghost grp_snap = grp;
                self.groups.push(grp);
                proof {
                    let gs1 = self.groups@;
                    assert(gs1 =~= gs0.push(grp_snap));
                    assert forall|nm: Seq<char>| true implies ((#[trigger] find_group(gs1, nm)
                        == find_group(gs0, nm) && nm != tr.1) || (nm == tr.1 && find_group(gs1, nm)
                        == gs0.len())) by {
                        lemma_find_group_push(gs0, grp_snap, nm);
                        if nm == tr.1 {
                            lemma_find_group(gs0, nm);
                        }
                    }
                    assert(grp_snap.decls@.map_values(|d: DeclInfo| decl_triple(d)) =~= seq![tr]);
                    assert(final (self).entries(tr.1) =~= old(self).entries(tr.1) + seq![tr]);
                    assert forall|nm: Seq<char>| nm != tr.1 implies final (self).entries(nm) == old(
                        self,
                    ).entries(nm) by {
                        if find_group(gs1, nm) != -1 {
                            lemma_find_group(gs0, nm);
                            assert(gs1[find_group(gs1, nm)] == gs0[find_group(gs0, nm)]);
                        }
                    }
                    lemma_find_group(gs0, tr.1);
                    assert forall|i: int, j: int|
                        0 <= i < j < gs1.len() implies (#[trigger] gs1[i]).name@ != (
                    #[trigger] gs1[j]).name@ by {
                        if j < gs0.len() {
                            assert(gs1[i] == gs0[i]);
                            assert(gs1[j] == gs0[j]);
                        } else {
                            assert(gs1[i] == gs0[i]);
                            assert(gs1[j] == grp_snap);
                            assert(gs0[i].name@ != tr.1);
                        }
                    }
                    assert forall|i: int, k: int|
                        0 <= i < gs1.len() && 0 <= k < (#[trigger] gs1[i]).decls@.len() implies (
                    #[trigger] gs1[i].decls@[k]).name@ == gs1[i].name@ by {
                        if i < gs0.len() {
                            assert(gs1[i] == gs0[i]);
                        } else {
                            assert(gs1[i] == grp_snap);
                        }
                    }
                    assert(final (self).wf());
                }
            },
        }
    }

    /// Register all top-level declarations of a parsed file; callable
    /// repeatedly to merge several files into one registry.
    pub fn register_file(&mut self, file: &File)
        requires
            old(self).wf(),
        ensures
            final (self).wf(),
            forall|nm: Seq<char>|
                #[trigger] final (self).entries(nm) == old(self).entries(nm) + records_for(
                    file.declarations@,
                    file.declarations@.len() as int,
                    nm,
                ),
            forall|nm: Seq<char>|
                #[trigger] final (self).knows(nm) <==> (old(self).knows(nm) || records_for(
                    file.declarations@,
                    file.declarations@.len() as int,
                    nm,
                ).len() > 0),
    {
        let ghost decls = file.declarations@;
        let n = file.declarations.len();
        let mut i: usize = 0;
        while i < n
            invariant
                0 <= i <= n,
                n == decls.len(),
                file.declarations@ == decls,
                self.wf(),
                forall|nm: Seq<char>|
                    #[trigger] self.entries(nm) == old(self).entries(nm) + records_for(
                        decls,
                        i as int,
                        nm,
                    ),
                forall|nm: Seq<char>|
                    #[trigger] self.knows(nm) <==> (old(self).knows(nm) || records_for(
                        decls,
                        i as int,
                        nm,
                    ).len() > 0),
            decreases n - i,
        {
            let decl = &file.declarations[i];
            let info: DeclInfo = match &decl.kind {
                DeclarationKind::Block(block) => DeclInfo {
                    keyword: block.keyword.name.clone(),
                    name: block.name.name.clone(),
                    span: decl.span,
                },
                DeclarationKind::Array(arr) => {
                    let mut kw = <String as StringExecFns>::from_str("[]");
                    StringExecFns::append(&mut kw, arr.item_keyword.name.as_str());
                    DeclInfo { keyword: kw, name: arr.name.name.clone(), span: decl.span }
                },
            };
            proof {
                assert(decl_triple(info) == decl_record(decls[i as int]));
            }
            let ghost pre = *self;
            self.register_decl(info);
            proof {
                assert forall|nm: Seq<char>| true implies #[trigger] self.entries(nm) == old(
                    self,
                ).entries(nm) + records_for(decls, i + 1, nm) by {
                    let rec = decl_record(decls[i as int]);
                    if nm == rec.1 {
                        assert(self.entries(nm) == pre.entries(nm) + seq![rec]);
                        assert(records_for(decls, i + 1, nm) =~= records_for(decls, i as int, nm)
                            + seq![rec]);
                        assert(self.entries(nm) =~= old(self).entries(nm) + records_for(
                            decls,
                            i + 1,
                            nm,
                        ));
                    } else {
                        assert(records_for(decls, i + 1, nm) =~= records_for(
                            decls,
                            i as int,
                            nm,
                        ));
                    }
                }
            }
            i += 1;
        }
        proof {
            assert(i as int == decls.len());
        }
    }

    /// Resolve a reference name to its registrations.
    pub fn resolve(&self, name: &str) -> (r: Option<&Vec<DeclInfo>>)
        ensures
            r is Some <==> self.knows(name@),
            r matches Some(ds) ==> ds@.map_values(|d: DeclInfo| decl_triple(d)) == self.entries(
                name@,
            ),
    {
        proof {
            lemma_find_group(self.groups@, name@);
        }
        match self.find_group_exec(name) {
            Some(g) => Some(&self.groups[g].decls),
            None => None,
        }
    }

    /// Resolve a constant reference to its value. The grammar has no
    /// constant-like top-level declaration, so nothing is ever registered
    /// here.
    pub fn resolve_const_value(&self, name: &str) -> (r: Option<&Value>)
        ensures
            r is None,
    {
        None
    }

    /// The registered names, in first-registration order.
    pub closed spec fn names_view(&self) -> Seq<Seq<char>> {
        self.groups@.map_values(|g: DeclGroup| g.name@)
    }

    /// All registered declaration names, in first-registration order.
    pub fn names(&self) -> (r: Vec<String>)
        ensures
            r@.len() == self.names_view().len(),
            forall|i: int|
                0 <= i < r@.len() ==> (#[trigger] r@[i])@ == self.names_view()[i] && self.knows(
                    r@[i]@,
                ),
    {
        let mut out: Vec<String> = Vec::new();
        let mut i: usize = 0;
        while i < self.groups.len()
            invariant
                0 <= i <= self.groups@.len(),
                out@.len() == i,
                forall|k: int|
                    0 <= k < i ==> (#[trigger] out@[k])@ == self.names_view()[k] && self.knows(
                        out@[k]@,
                    ),
            decreases self.groups@.len() - i,
        {
            proof {
                lemma_find_group(self.groups@, self.groups@[i as int].name@);
            }
            out.push(self.groups[i].name.clone());
            i += 1;
        }
        out
    }
}

impl Resolver {
    /// The name and span of each registration after a name's first, as a
    /// duplicate record.
    pub open spec fn name_dups(&self, nm: Seq<char>) -> Seq<(Seq<char>, Span)> {
        self.entries(nm).skip(1).map_values(|t: (Seq<char>, Seq<char>, Span)| (t.1, t.2))
    }

    /// The duplicate records of the first `i` registered names, in order.
    pub open spec fn dups_upto(&self, i: int) -> Seq<(Seq<char>, Span)>
        decreases i,
    {
        if i <= 0 || i > self.names_view().len() {
            Seq::empty()
        } else {
            self.dups_upto(i - 1) + self.name_dups(self.names_view()[i - 1])
        }
    }

    /// Every duplicate record: one per registration of an already-registered
    /// name, pointing at every occurrence after the first.
    pub open spec fn dup_list(&self) -> Seq<(Seq<char>, Span)> {
        self.dups_upto(self.names_view().len() as int)
    }

    /// Check for duplicate declarations: one error per occurrence of a name
    /// after its first.
    pub fn find_duplicates(&self) -> (r: Vec<NmlError>)
        requires
            self.wf(),
        ensures
            r@.len() == self.dup_list().len(),
            forall|i: int|
                0 <= i < r@.len() ==> {
                    let rec = self.dup_list()[i];
                    &&& (#[trigger] r@[i]) is Validation
                    &&& r@[i].spec_message() == "duplicate declaration: '"@ + rec.0 + "'"@
                    &&& r@[i].spec_span() == rec.1
                },
    {
        let mut errors: Vec<NmlError> = Vec::new();
        let n = self.groups.len();
        let mut i: usize = 0;
        while i < n
            invariant
                0 <= i <= n,
                n == self.groups@.len(),
                self.wf(),
                errors@.len() == self.dups_upto(i as int).len(),
                forall|k: int|
                    0 <= k < errors@.len() ==> {
                        let rec = self.dups_upto(i as int)[k];
                        &&& (#[trigger] errors@[k]) is Validation
                        &&& errors@[k].spec_message() == "duplicate declaration: '"@ + rec.0
                            + "'"@
                        &&& errors@[k].spec_span() == rec.1
                    },
            decreases n - i,
        {
            proof {
                // This group is the one its name resolves to.
                let gs = self.groups@;
                let nm0 = gs[i as int].name@;
                lemma_find_group(gs, nm0);
                let f = find_group(gs, nm0);
                if f == -1 {
                    assert(gs[i as int].name@ != nm0);
                    assert(false);
                } else if f < i as int {
                    assert(gs[f].name@ != gs[i as int].name@);
                    assert(false);
                } else if f > i as int {
                    assert(gs[i as int].name@ != nm0);
                    assert(false);
                }
                assert(f == i as int);
                assert(self.names_view()[i as int] == nm0);
                assert(self.entries(nm0) == gs[i as int].decls@.map_values(
                    |d: DeclInfo| decl_triple(d),
                ));
                assert(self.entries(nm0).len() == gs[i as int].decls@.len());
                assert forall|t: int| 0 <= t < self.entries(nm0).len() implies #[trigger] self.entries(
                    nm0,
                )[t] == decl_triple(gs[i as int].decls@[t]) by {
                }
                assert(gs[i as int].decls@.len() >= 1);
                assert(self.name_dups(nm0).len() == gs[i as int].decls@.len() - 1);
                assert forall|t: int| 0 <= t < self.name_dups(nm0).len() implies #[trigger] self.name_dups(
                    nm0,
                )[t] == (nm0, gs[i as int].decls@[t + 1].span) by {
                    assert(self.name_dups(nm0)[t] == {
                        let tr = self.entries(nm0).skip(1)[t];
                        (tr.1, tr.2)
                    });
                    assert(self.entries(nm0).skip(1)[t] == self.entries(nm0)[t + 1]);
                    assert(self.entries(nm0)[t + 1] == decl_triple(gs[i as int].decls@[t + 1]));
                    assert(gs[i as int].decls@[t + 1].name@ == nm0);
                }
            }
            let group = &self.groups[i];
            let ghost nm = group.name@;
            let ghost dups_before = self.dups_upto(i as int);
            let ghost this_dups = self.name_dups(nm);
            let m = group.decls.len();
            if m > 1 {
                let mut k: usize = 1;
                while k < m
                    invariant
                        1 <= k <= m,
                        group == &self.groups@[i as int],
                        0 <= i < self.groups@.len(),
                        m == group.decls@.len(),
                        nm == group.name@,
                        this_dups == self.name_dups(nm),
                        this_dups.len() == m - 1,
                        forall|t: int|
                            0 <= t < this_dups.len() ==> #[trigger] this_dups[t] == (
                            nm,
                            group.decls@[t + 1].span,
                        ),
                        errors@.len() == dups_before.len() + k - 1,
                        forall|j: int|
                            0 <= j < errors@.len() ==> {
                                let rec = (dups_before + this_dups)[j];
                                &&& (#[trigger] errors@[j]) is Validation
                                &&& errors@[j].spec_message() == "duplicate declaration: '"@
                                    + rec.0 + "'"@
                                &&& errors@[j].spec_span() == rec.1
                            },
                    decreases m - k,
                {
                    let mut msg = <String as StringExecFns>::from_str("duplicate declaration: '");
                    StringExecFns::append(&mut msg, group.name.as_str());
                    StringExecFns::append(&mut msg, "'");
                    let err = NmlError::Validation { message: msg, span: group.decls[k].span };
                    errors.push(err);
                    k += 1;
                }
            } else {
                proof {
                    assert(this_dups.len() == 0);
                    assert(dups_before + this_dups =~= dups_before);
                }
            }
            proof {
                assert(self.dups_upto(i + 1) =~= dups_before + this_dups);
            }
            i += 1;
        }
        errors
    }
}

/// The unresolved reference recorded for one body entry, against a predicate
/// `known` over names: a property whose value is a bare reference to an
/// unknown name yields one record; nested blocks and named list items are
/// walked recursively; everything else yields none.
pub open spec fn entry_unresolved(known: spec_fn(Seq<char>) -> bool, e: BodyEntry) -> Seq<
    (Seq<char>, Span),
>
    decreases e, 0int, 0int,
{
    match e.kind {
        BodyEntryKind::Property(p) => match p.value.value {
            Value::Reference(nm) => if !known(nm@) {
                seq![(nm@, p.value.span)]
            } else {
                Seq::empty()
            },
            _ => Seq::empty(),
        },
        BodyEntryKind::NestedBlock(nb) => body_unresolved(known, nb.body),
        BodyEntryKind::ListItem(item) => match item.kind {
            ListItemKind::Named { name, body } => body_unresolved(known, body),
            _ => Seq::empty(),
        },
        _ => Seq::empty(),
    }
}

/// The unresolved references of the first `i` entries of a body.
pub open spec fn entries_unresolved(
    known: spec_fn(Seq<char>) -> bool,
    b: Body,
    i: int,
) -> Seq<(Seq<char>, Span)>
    decreases b, 0int, i,
{
    if i <= 0 || i > b.entries@.len() {
        Seq::empty()
    } else {
        entries_unresolved(known, b, i - 1) + entry_unresolved(known, b.entries@[i - 1])
    }
}

/// The unresolved references of a whole body, in walk order.
pub open spec fn body_unresolved(known: spec_fn(Seq<char>) -> bool, b: Body) -> Seq<
    (Seq<char>, Span),
>
    decreases b, 1int, 0int,
{
    entries_unresolved(known, b, b.entries@.len() as int)
}

/// The unresolved references of the first `i` list items of an array
/// declaration: only named items' bodies are walked.
pub open spec fn items_unresolved(
    known: spec_fn(Seq<char>) -> bool,
    a: ArrayDecl,
    i: int,
) -> Seq<(Seq<char>, Span)>
    decreases a, 0int, i,
{
    if i <= 0 || i > a.body.items@.len() {
        Seq::empty()
    } else {
        items_unresolved(known, a, i - 1) + match a.body.items@[i - 1].kind {
            ListItemKind::Named { name, body } => body_unresolved(known, body),
            _ => Seq::empty(),
        }
    }
}

/// The unresolved references of one declaration: schema definitions are never
/// checked for value references.
pub open spec fn decl_unresolved(known: spec_fn(Seq<char>) -> bool, d: Declaration) -> Seq<
    (Seq<char>, Span),
>
    decreases d, 2int, 0int,
{
    match d.kind {
        DeclarationKind::Block(b) => if !is_schema_keyword(b.keyword.name@) {
            body_unresolved(known, b.body)
        } else {
            Seq::empty()
        },
        DeclarationKind::Array(a) => if !is_schema_keyword(a.item_keyword.name@) {
            items_unresolved(known, a, a.body.items@.len() as int)
        } else {
            Seq::empty()
        },
    }
}

/// The unresolved references of the first `i` declarations of a file.
pub open spec fn file_unresolved(known: spec_fn(Seq<char>) -> bool, f: File, i: int) -> Seq<
    (Seq<char>, Span),
>
    decreases f, 0int, i,
{
    if i <= 0 || i > f.declarations@.len() {
        Seq::empty()
    } else {
        file_unresolved(known, f, i - 1) + decl_unresolved(known, f.declarations@[i - 1])
    }
}

impl Resolver {
    /// The registry as a predicate over names.
    pub open spec fn known_fn(&self) -> spec_fn(Seq<char>) -> bool {
        |nm: Seq<char>| self.knows(nm)
    }

    /// Appends one error per unresolved reference in the body, in walk order.
    fn check_body_refs(&self, body: &Body, errors: &mut Vec<NmlError>)
        ensures
            final (errors)@.len() == old(errors)@.len() + body_unresolved(
                self.known_fn(),
                *body,
            ).len(),
            forall|i: int| 0 <= i < old(errors)@.len() ==> final (errors)@[i] == old(errors)@[i],
            forall|i: int|
                old(errors)@.len() <= i < final (errors)@.len() ==> {
                    let rec = body_unresolved(self.known_fn(), *body)[i - old(errors)@.len()];
                    &&& (#[trigger] final (errors)@[i]) is Validation
                    &&& final (errors)@[i].spec_message() == "unresolved reference '"@ + rec.0
                        + "'"@
                    &&& final (errors)@[i].spec_span() == rec.1
                },
        decreases *body,
    {
        let ghost known = self.known_fn();
        let n = body.entries.len();
        let mut i: usize = 0;
        proof {
            assert(entries_unresolved(known, *body, 0) =~= Seq::<(Seq<char>, Span)>::empty());
        }
        while i < n
            invariant
                0 <= i <= n,
                n == body.entries@.len(),
                known == self.known_fn(),
                errors@.len() == old(errors)@.len() + entries_unresolved(
                    known,
                    *body,
                    i as int,
                ).len(),
                forall|k: int|
                    0 <= k < old(errors)@.len() ==> #[trigger] errors@[k] == old(errors)@[k],
                forall|k: int|
                    old(errors)@.len() <= k < errors@.len() ==> {
                        let rec = entries_unresolved(known, *body, i as int)[k - old(
                            errors,
                        )@.len()];
                        &&& (#[trigger] errors@[k]) is Validation
                        &&& errors@[k].spec_message() == "unresolved reference '"@ + rec.0 + "'"@
                        &&& errors@[k].spec_span() == rec.1
                    },
            decreases n - i,
        {
            let ghost seg0 = entries_unresolved(known, *body, i as int);
            let ghost this_entry = entry_unresolved(known, body.entries@[i as int]);
            let entry = &body.entries[i];
            match &entry.kind {
                BodyEntryKind::Property(prop) => {
                    let is_ref = matches!(prop.value.value, Value::Reference(_));
                    if is_ref {
                        let name: &String = match &prop.value.value {
                            Value::Reference(nm) => nm,
                            _ => &prop.name.name,
                        };
                        match self.find_group_exec(name.as_str()) {
                            Some(_) => {
                                proof {
                                    assert(self.knows(name@));
                                    assert(this_entry =~= Seq::<(Seq<char>, Span)>::empty());
                                }
                            },
                            None => {
                                proof {
                                    assert(!self.knows(name@));
                                    assert(this_entry =~= seq![(name@, prop.value.span)]);
                                }
                                let mut msg = <String as StringExecFns>::from_str(
                                    "unresolved reference '",
                                );
                                StringExecFns::append(&mut msg, name.as_str());
                                StringExecFns::append(&mut msg, "'");
                                let err = NmlError::Validation {
                                    message: msg,
                                    span: prop.value.span,
                                };
                                errors.push(err);
                            },
                        }
                    } else {
                        proof {
                            assert(this_entry =~= Seq::<(Seq<char>, Span)>::empty());
                        }
                    }
                },
                BodyEntryKind::NestedBlock(nb) => {
                    self.check_body_refs(&nb.body, errors);
                },
                BodyEntryKind::ListItem(item) => {
                    match &item.kind {
                        ListItemKind::Named { name, body: item_body } => {
                            self.check_body_refs(item_body, errors);
                        },
                        _ => {
                            proof {
                                assert(this_entry =~= Seq::<(Seq<char>, Span)>::empty());
                            }
                        },
                    }
                },
                _ => {
                    proof {
                        assert(this_entry =~= Seq::<(Seq<char>, Span)>::empty());
                    }
                },
            }
            proof {
                assert(entries_unresolved(known, *body, i + 1) =~= seg0 + this_entry);
            }
            i += 1;
        }
        proof {
            assert(body_unresolved(known, *body) == entries_unresolved(known, *body, n as int));
        }
    }

    /// Find all unresolved references in the file: every bare `Reference`
    /// value whose name is not registered, walking nested blocks and named
    /// list items, but never the bodies of `model`, `trait`, or `enum`
    /// declarations.
    pub fn find_unresolved_references(&self, file: &File) -> (r: Vec<NmlError>)
        ensures
            r@.len() == file_unresolved(self.known_fn(), *file, file.declarations@.len() as int).len(),
            forall|i: int|
                0 <= i < r@.len() ==> {
                    let rec = file_unresolved(
                        self.known_fn(),
                        *file,
                        file.declarations@.len() as int,
                    )[i];
                    &&& (#[trigger] r@[i]) is Validation
                    &&& r@[i].spec_message() == "unresolved reference '"@ + rec.0 + "'"@
                    &&& r@[i].spec_span() == rec.1
                },
    {
        let ghost known = self.known_fn();
        let mut errors: Vec<NmlError> = Vec::new();
        let n = file.declarations.len();
        let mut i: usize = 0;
        while i < n
            invariant
                0 <= i <= n,
                n == file.declarations@.len(),
                known == self.known_fn(),
                errors@.len() == file_unresolved(known, *file, i as int).len(),
                forall|k: int|
                    0 <= k < errors@.len() ==> {
                        let rec = file_unresolved(known, *file, i as int)[k];
                        &&& (#[trigger] errors@[k]) is Validation
                        &&& errors@[k].spec_message() == "unresolved reference '"@ + rec.0 + "'"@
                        &&& errors@[k].spec_span() == rec.1
                    },
            decreases n - i,
        {
            let ghost seg0 = file_unresolved(known, *file, i as int);
            let ghost this_decl = decl_unresolved(known, file.declarations@[i as int]);
            let decl = &file.declarations[i];
            match &decl.kind {
                DeclarationKind::Block(block) => {
                    if !is_schema_keyword_exec(block.keyword.name.as_str()) {
                        self.check_body_refs(&block.body, &mut errors);
                    } else {
                        proof {
                            assert(this_decl =~= Seq::<(Seq<char>, Span)>::empty());
                        }
                    }
                },
                DeclarationKind::Array(arr) => {
                    if !is_schema_keyword_exec(arr.item_keyword.name.as_str()) {
                        let ghost adecl = match file.declarations@[i as int].kind {
                            DeclarationKind::Array(a) => a,
                            DeclarationKind::Block(b) => arbitrary(),
                        };
                        let m = arr.body.items.len();
                        let mut t: usize = 0;
                        proof {
                            assert(items_unresolved(known, adecl, 0) =~= Seq::<
                                (Seq<char>, Span),
                            >::empty());
                        }
                        while t < m
                            invariant
                                0 <= t <= m,
                                known == self.known_fn(),
                                file.declarations@[i as int].kind == DeclarationKind::Array(
                                    adecl,
                                ),
                                arr == &adecl,
                                m == arr.body.items@.len(),
                                errors@.len() == seg0.len() + items_unresolved(
                                    known,
                                    adecl,
                                    t as int,
                                ).len(),
                                forall|k: int|
                                    0 <= k < errors@.len() ==> {
                                        let rec = (seg0 + items_unresolved(
                                            known,
                                            adecl,
                                            t as int,
                                        ))[k];
                                        &&& (#[trigger] errors@[k]) is Validation
                                        &&& errors@[k].spec_message() == "unresolved reference '"@
                                            + rec.0 + "'"@
                                        &&& errors@[k].spec_span() == rec.1
                                    },
                            decreases m - t,
                        {
                            let ghost items0 = items_unresolved(known, adecl, t as int);
                            let item = &arr.body.items[t];
                            match &item.kind {
                                ListItemKind::Named { name, body } => {
                                    self.check_body_refs(body, &mut errors);
                                },
                                _ => {},
                            }
                            proof {
                                assert(items_unresolved(known, adecl, t + 1) =~= items0 + (
                                match adecl.body.items@[t as int].kind {
                                    ListItemKind::Named { name, body } => body_unresolved(
                                        known,
                                        body,
                                    ),
                                    _ => Seq::<(Seq<char>, Span)>::empty(),
                                }));
                            }
                            t += 1;
                        }
                        proof {
                            assert(this_decl == items_unresolved(known, adecl, m as int));
                        }
                    } else {
                        proof {
                            assert(this_decl =~= Seq::<(Seq<char>, Span)>::empty());
                        }
                    }
                },
            }
            proof {
                assert(file_unresolved(known, *file, i + 1) =~= seg0 + this_decl);
            }
            i += 1;
        }
        errors
    }
}

/// Elements found among the first `j` entries stay found among the first `i`.
proof fn lemma_entries_unresolved_mono(
    known: spec_fn(Seq<char>) -> bool,
    b: Body,
    j: int,
    i: int,
    e: (Seq<char>, Span),
)
    requires
        0 <= j <= i <= b.entries@.len(),
        entries_unresolved(known, b, j).contains(e),
    ensures
        entries_unresolved(known, b, i).contains(e),
    decreases i - j,
{
    if j < i {
        assert(entries_unresolved(known, b, j + 1) == entries_unresolved(known, b, j)
            + entry_unresolved(known, b.entries@[j]));
        let w = choose|w: int|
            0 <= w < entries_unresolved(known, b, j).len() && entries_unresolved(known, b, j)[w]
                == e;
        assert(entries_unresolved(known, b, j + 1)[w] == e);
        lemma_entries_unresolved_mono(known, b, j + 1, i, e);
    }
}

/// Whatever one entry contributes is among the whole body's findings.
pub proof fn lemma_entry_findings_in_body(known: spec_fn(Seq<char>) -> bool, b: Body, j: int)
    requires
        0 <= j < b.entries@.len(),
    ensures
        forall|t: int|
            0 <= t < entry_unresolved(known, b.entries@[j]).len() ==> body_unresolved(
                known,
                b,
            ).contains(#[trigger] entry_unresolved(known, b.entries@[j])[t]),
{
    assert forall|t: int|
        0 <= t < entry_unresolved(known, b.entries@[j]).len() implies body_unresolved(
        known,
        b,
    ).contains(#[trigger] entry_unresolved(known, b.entries@[j])[t]) by {
        let e = entry_unresolved(known, b.entries@[j])[t];
        assert(entries_unresolved(known, b, j + 1) == entries_unresolved(known, b, j)
            + entry_unresolved(known, b.entries@[j]));
        assert(entries_unresolved(known, b, j + 1)[entries_unresolved(known, b, j).len() + t]
            == e);
        assert(entries_unresolved(known, b, j + 1).contains(e));
        lemma_entries_unresolved_mono(known, b, j + 1, b.entries@.len() as int, e);
    }
}

/// Reference checking never looks inside the body of a `model`, `trait`, or
/// `enum` declaration: such a declaration contributes no findings at all.
pub proof fn lemma_schema_declarations_not_checked(known: spec_fn(Seq<char>) -> bool, d: Declaration)
    requires
        match d.kind {
            DeclarationKind::Block(b) => is_schema_keyword(b.keyword.name@),
            DeclarationKind::Array(a) => is_schema_keyword(a.item_keyword.name@),
        },
    ensures
        decl_unresolved(known, d).len() == 0,
{
}

/// A property holding a bare reference to an unknown name, standing anywhere
/// in a body, is flagged with its name and its value's span among that body's
/// findings.
pub proof fn lemma_unresolved_property_flagged(known: spec_fn(Seq<char>) -> bool, b: Body, j: int)
    requires
        0 <= j < b.entries@.len(),
        b.entries@[j].kind is Property,
        b.entries@[j].kind->Property_0.value.value is Reference,
        !known(b.entries@[j].kind->Property_0.value.value->Reference_0@),
    ensures
        body_unresolved(known, b).contains(
            (
                b.entries@[j].kind->Property_0.value.value->Reference_0@,
                b.entries@[j].kind->Property_0.value.span,
            ),
        ),
{
    let p = b.entries@[j].kind->Property_0;
    let nm = p.value.value->Reference_0;
    assert(entry_unresolved(known, b.entries@[j]) == seq![(nm@, p.value.span)]);
    assert(entry_unresolved(known, b.entries@[j])[0] == (nm@, p.value.span));
    lemma_entry_findings_in_body(known, b, j);
}

/// Findings inside a nested block are among the enclosing body's findings:
/// reference checking walks nested blocks.
pub proof fn lemma_nested_block_checked(known: spec_fn(Seq<char>) -> bool, b: Body, j: int)
    requires
        0 <= j < b.entries@.len(),
        b.entries@[j].kind is NestedBlock,
    ensures
        forall|t: int|
            0 <= t < body_unresolved(known, b.entries@[j].kind->NestedBlock_0.body).len()
                ==> body_unresolved(known, b).contains(
                #[trigger] body_unresolved(known, b.entries@[j].kind->NestedBlock_0.body)[t],
            ),
{
    assert(entry_unresolved(known, b.entries@[j]) == body_unresolved(
        known,
        b.entries@[j].kind->NestedBlock_0.body,
    ));
    lemma_entry_findings_in_body(known, b, j);
}

/// Findings inside a named list item's body are among the enclosing body's
/// findings: reference checking walks named list items.
pub proof fn lemma_named_item_checked(known: spec_fn(Seq<char>) -> bool, b: Body, j: int)
    requires
        0 <= j < b.entries@.len(),
        b.entries@[j].kind is ListItem,
        b.entries@[j].kind->ListItem_0.kind is Named,
    ensures
        forall|t: int|
            0 <= t < body_unresolved(
                known,
                b.entries@[j].kind->ListItem_0.kind->Named_body,
            ).len() ==> body_unresolved(known, b).contains(
                #[trigger] body_unresolved(
                    known,
                    b.entries@[j].kind->ListItem_0.kind->Named_body,
                )[t],
            ),
{
    assert(entry_unresolved(known, b.entries@[j]) == body_unresolved(
        known,
        b.entries@[j].kind->ListItem_0.kind->Named_body,
    ));
    lemma_entry_findings_in_body(known, b, j);
}

/// Findings found up to declaration `j` stay found up to declaration `i`.
proof fn lemma_file_unresolved_mono(
    known: spec_fn(Seq<char>) -> bool,
    f: File,
    j: int,
    i: int,
    e: (Seq<char>, Span),
)
    requires
        0 <= j <= i <= f.declarations@.len(),
        file_unresolved(known, f, j).contains(e),
    ensures
        file_unresolved(known, f, i).contains(e),
    decreases i - j,
{
    if j < i {
        assert(file_unresolved(known, f, j + 1) == file_unresolved(known, f, j) + decl_unresolved(
            known,
            f.declarations@[j],
        ));
        let w = choose|w: int|
            0 <= w < file_unresolved(known, f, j).len() && file_unresolved(known, f, j)[w] == e;
        assert(file_unresolved(known, f, j + 1)[w] == e);
        lemma_file_unresolved_mono(known, f, j + 1, i, e);
    }
}

/// Whatever one declaration contributes is among the whole file's findings.
pub proof fn lemma_decl_findings_in_file(known: spec_fn(Seq<char>) -> bool, f: File, j: int)
    requires
        0 <= j < f.declarations@.len(),
    ensures
        forall|t: int|
            0 <= t < decl_unresolved(known, f.declarations@[j]).len() ==> file_unresolved(
                known,
                f,
                f.declarations@.len() as int,
            ).contains(#[trigger] decl_unresolved(known, f.declarations@[j])[t]),
{
    assert forall|t: int|
        0 <= t < decl_unresolved(known, f.declarations@[j]).len() implies file_unresolved(
        known,
        f,
        f.declarations@.len() as int,
    ).contains(#[trigger] decl_unresolved(known, f.declarations@[j])[t]) by {
        let e = decl_unresolved(known, f.declarations@[j])[t];
        assert(file_unresolved(known, f, j + 1) == file_unresolved(known, f, j) + decl_unresolved(
            known,
            f.declarations@[j],
        ));
        assert(file_unresolved(known, f, j + 1)[file_unresolved(known, f, j).len() + t] == e);
        assert(file_unresolved(known, f, j + 1).contains(e));
        lemma_file_unresolved_mono(known, f, j + 1, f.declarations@.len() as int, e);
    }
}

} // verus!
