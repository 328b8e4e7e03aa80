//! The store itself: the four tables, held in memory.
//!
//! A `&mut Database` is the one handle through which the tables change, so
//! an operation that holds it runs to its end before the next begins.

use vstd::prelude::*;
use crate::db::rows::{find, keys_distinct};
use crate::error::AppError;
use crate::models::{
    views, Node, NodeView, Project, ProjectView, Setting, SettingView, Tree, TreeView,
};
use crate::tables::{
    distinct, has_row, lemma_empty_wf, lemma_parent_found, nodes_have_trees, parent_at,
    parents_precede, row_index, sorted, trees_have_projects, Keyed, Tables,
};
use crate::text::{before, lemma_before_transitive, sorts_before};

pub mod migrations;
pub mod rows;

verus! {

/// The tables of the store. Its view is their mathematical model; every
/// value that this crate hands out keeps the integrity rules.
pub struct Database {
    pub(crate) projects: Vec<Project>,
    pub(crate) trees: Vec<Tree>,
    pub(crate) nodes: Vec<Node>,
    pub(crate) settings: Vec<Setting>,
}

impl View for Database {
    type V = Tables;

    open(crate) spec fn view(&self) -> Tables {
        Tables {
            projects: views(self.projects@),
            trees: views(self.trees@),
            nodes: views(self.nodes@),
            settings: views(self.settings@),
        }
    }
}

impl Database {
    /// What holds of every store: the integrity rules of its tables.
    #[verifier::type_invariant]
    pub open(crate) spec fn inv(&self) -> bool {
        self@.wf()
    }

    /// An empty store.
    pub fn new() -> (db: Database)
        ensures
            db@ == Tables::empty(),
            db@.wf(),
    {
        proof {
            lemma_empty_wf();
        }
        Database { projects: Vec::new(), trees: Vec::new(), nodes: Vec::new(), settings: Vec::new() }
    }

    /// The integrity rules hold of every store. The call does nothing when
    /// the program runs; it hands the fact to a proof.
    pub fn sound(&self)
        ensures
            self@.wf(),
    {
        proof {
            use_type_invariant(self);
        }
    }

    /// Takes the nodes out of the store, which is left without nodes.
    pub(crate) fn take_nodes(&mut self) -> (rows: Vec<Node>)
        ensures
            views(rows@) == old(self)@.nodes,
            final(self)@ == (Tables { nodes: Seq::empty(), ..old(self)@ }),
    {
        proof {
            use_type_invariant(&*self);
        }
        let mut rows: Vec<Node> = Vec::new();
        assert(views(rows@) =~= Seq::<NodeView>::empty());
        core::mem::swap(&mut self.nodes, &mut rows);
        rows
    }

    /// Puts nodes into the store, in place of those it holds.
    pub(crate) fn give_nodes(&mut self, rows: Vec<Node>)
        requires
            (Tables { nodes: views(rows@), ..old(self)@ }).wf(),
        ensures
            final(self)@ == (Tables { nodes: views(rows@), ..old(self)@ }),
    {
        let mut rows = rows;
        core::mem::swap(&mut self.nodes, &mut rows);
    }

    /// Takes the trees and the nodes out of the store, which is left with
    /// neither.
    pub(crate) fn take_trees(&mut self) -> (out: (Vec<Tree>, Vec<Node>))
        ensures
            views(out.0@) == old(self)@.trees,
            views(out.1@) == old(self)@.nodes,
            final(self)@ == (Tables { trees: Seq::empty(), nodes: Seq::empty(), ..old(self)@ }),
    {
        let nodes = self.take_nodes();
        proof {
            use_type_invariant(&*self);
        }
        let mut trees: Vec<Tree> = Vec::new();
        assert(views(trees@) =~= Seq::<TreeView>::empty());
        core::mem::swap(&mut self.trees, &mut trees);
        (trees, nodes)
    }

    /// Puts trees and nodes into a store that holds no nodes, in place of
    /// the trees it holds.
    pub(crate) fn give_trees(&mut self, trees: Vec<Tree>, nodes: Vec<Node>)
        requires
            old(self)@.nodes.len() == 0,
            (Tables { trees: views(trees@), nodes: views(nodes@), ..old(self)@ }).wf(),
        ensures
            final(self)@ == (Tables { trees: views(trees@), nodes: views(nodes@), ..old(self)@ }),
    {
        let mut trees = trees;
        core::mem::swap(&mut self.trees, &mut trees);
        self.give_nodes(nodes);
    }

    /// Takes the projects, the trees and the nodes out of the store, which
    /// is left with the settings alone.
    pub(crate) fn take_projects(&mut self) -> (out: (Vec<Project>, Vec<Tree>, Vec<Node>))
        ensures
            views(out.0@) == old(self)@.projects,
            views(out.1@) == old(self)@.trees,
            views(out.2@) == old(self)@.nodes,
            final(self)@ == (Tables {
                projects: Seq::empty(),
                trees: Seq::empty(),
                nodes: Seq::empty(),
                ..old(self)@
            }),
    {
        let (trees, nodes) = self.take_trees();
        proof {
            use_type_invariant(&*self);
        }
        let mut projects: Vec<Project> = Vec::new();
        assert(views(projects@) =~= Seq::<ProjectView>::empty());
        core::mem::swap(&mut self.projects, &mut projects);
        (projects, trees, nodes)
    }

    /// Puts projects, trees and nodes into a store that holds no trees and
    /// no nodes, in place of the projects it holds.
    pub(crate) fn give_projects(&mut self, projects: Vec<Project>, trees: Vec<Tree>, nodes: Vec<Node>)
        requires
            old(self)@.trees.len() == 0,
            old(self)@.nodes.len() == 0,
            (Tables {
                projects: views(projects@),
                trees: views(trees@),
                nodes: views(nodes@),
                ..old(self)@
            }).wf(),
        ensures
            final(self)@ == (Tables {
                projects: views(projects@),
                trees: views(trees@),
                nodes: views(nodes@),
                ..old(self)@
            }),
    {
        let mut projects = projects;
        core::mem::swap(&mut self.projects, &mut projects);
        self.give_trees(trees, nodes);
    }

    /// Takes the settings out of the store, which is left without settings.
    pub(crate) fn take_settings(&mut self) -> (rows: Vec<Setting>)
        ensures
            views(rows@) == old(self)@.settings,
            final(self)@ == (Tables { settings: Seq::empty(), ..old(self)@ }),
    {
        proof {
            use_type_invariant(&*self);
        }
        let mut rows: Vec<Setting> = Vec::new();
        assert(views(rows@) =~= Seq::<SettingView>::empty());
        core::mem::swap(&mut self.settings, &mut rows);
        rows
    }

    /// Puts settings into the store, in place of those it holds.
    pub(crate) fn give_settings(&mut self, rows: Vec<Setting>)
        requires
            (Tables { settings: views(rows@), ..old(self)@ }).wf(),
        ensures
            final(self)@ == (Tables { settings: views(rows@), ..old(self)@ }),
    {
        let mut rows = rows;
        core::mem::swap(&mut self.settings, &mut rows);
    }
}

/// Whether the settings stand in strictly ascending order of their keys.
fn settings_sorted(rows: &Vec<Setting>) -> (r: bool)
    ensures
        r == sorted(views(rows@)),
{
    let mut j: usize = 1;
    while j < rows.len()
        invariant
            1 <= j,
            forall|a: int, b: int|
                0 <= a < b < j && b < rows.len() ==> before(
                    views(rows@)[a].key(),
                    views(rows@)[b].key(),
                ),
        decreases rows.len() - j,
    {
        if !sorts_before(rows[j - 1].key.as_str(), rows[j].key.as_str()) {
            assert(!before(views(rows@)[j - 1].key(), views(rows@)[j as int].key()));
            return false;
        }
        proof {
            assert forall|a: int| 0 <= a < j implies before(
                views(rows@)[a].key(),
                views(rows@)[j as int].key(),
            ) by {
                if a < j - 1 {
                    assert(before(views(rows@)[a].key(), views(rows@)[j - 1].key()));
                    lemma_before_transitive(
                        views(rows@)[a].key(),
                        views(rows@)[j - 1].key(),
                        views(rows@)[j as int].key(),
                    );
                }
            }
        }
        j = j + 1;
    }
    true
}

/// Whether every tree that names a project names one of `projects`.
fn trees_fit(trees: &Vec<Tree>, projects: &Vec<Project>) -> (r: bool)
    requires
        distinct(views(projects@)),
    ensures
        r == trees_have_projects(views(trees@), views(projects@)),
{
    let mut i: usize = 0;
    while i < trees.len()
        invariant
            i <= trees.len(),
            distinct(views(projects@)),
            forall|a: int|
                0 <= a < i ==> match (#[trigger] views(trees@)[a]).project_id {
                    Some(p) => has_row(views(projects@), p),
                    None => true,
                },
        decreases trees.len() - i,
    {
        match &trees[i].project_id {
            Some(p) => {
                if find(projects, p).is_none() {
                    assert(views(trees@)[i as int].project_id == Some(p@));
                    return false;
                }
            },
            None => {},
        }
        i = i + 1;
    }
    true
}

/// Whether every node belongs to one of `trees` and, where it names a
/// parent, names an earlier node of its own tree.
fn nodes_fit(nodes: &Vec<Node>, trees: &Vec<Tree>) -> (r: bool)
    requires
        distinct(views(nodes@)),
        distinct(views(trees@)),
    ensures
        r == (nodes_have_trees(views(nodes@), views(trees@)) && parents_precede(views(nodes@))),
{
    let ghost rows = views(nodes@);
    let mut i: usize = 0;
    while i < nodes.len()
        invariant
            i <= nodes.len(),
            rows == views(nodes@),
            distinct(rows),
            distinct(views(trees@)),
            forall|a: int| 0 <= a < i ==> has_row(views(trees@), (#[trigger] rows[a]).tree_id),
            forall|a: int|
                0 <= a < i && (#[trigger] rows[a]).parent_id is Some ==> exists|b: int|
                    parent_at(rows, a, b),
        decreases nodes.len() - i,
    {
        if find(trees, &nodes[i].tree_id).is_none() {
            assert(!has_row(views(trees@), rows[i as int].tree_id));
            return false;
        }
        match &nodes[i].parent_id {
            Some(p) => {
                let fits = match find(nodes, p) {
                    Some(j) => j < i && nodes[j].tree_id == nodes[i].tree_id,
                    None => false,
                };
                proof {
                    assert(rows[i as int].parent_id == Some(p@));
                    if fits {
                        assert(parent_at(rows, i as int, row_index(rows, p@)));
                    } else {
                        assert forall|b: int| !parent_at(rows, i as int, b) by {
                            if parent_at(rows, i as int, b) {
                                lemma_parent_found(rows, i as int, b);
                            }
                        }
                    }
                }
                if !fits {
                    return false;
                }
            },
            None => {},
        }
        i = i + 1;
    }
    true
}

impl Database {
    /// Takes the rows read from the physical store, each table in the order
    /// it was written and the settings in the order of their keys, and makes
    /// a store of them if they keep the integrity rules. Rows that break a
    /// rule are refused whole.
    pub fn load(
        projects: Vec<Project>,
        trees: Vec<Tree>,
        nodes: Vec<Node>,
        settings: Vec<Setting>,
    ) -> (r: Result<Database, AppError>)
        ensures
            match r {
                Ok(db) => db@.wf() && db@ == (Tables {
                    projects: views(projects@),
                    trees: views(trees@),
                    nodes: views(nodes@),
                    settings: views(settings@),
                }),
                Err(e) => e@ is StoreFailure && !(Tables {
                    projects: views(projects@),
                    trees: views(trees@),
                    nodes: views(nodes@),
                    settings: views(settings@),
                }).wf(),
            },
    {
        let sound = keys_distinct(&projects) && keys_distinct(&trees) && keys_distinct(&nodes)
            && settings_sorted(&settings) && trees_fit(&trees, &projects) && nodes_fit(
            &nodes,
            &trees,
        );
        if sound {
            Ok(Database { projects, trees, nodes, settings })
        } else {
            Err(AppError::StoreFailure("the stored rows break the integrity rules".to_owned()))
        }
    }

    /// The projects, in the order of the table.
    pub fn projects(&self) -> (rows: &Vec<Project>)
        ensures
            views(rows@) == self@.projects,
    {
        &self.projects
    }

    /// The trees, in the order of the table.
    pub fn trees(&self) -> (rows: &Vec<Tree>)
        ensures
            views(rows@) == self@.trees,
    {
        &self.trees
    }

    /// The nodes, in the order of the table.
    pub fn nodes(&self) -> (rows: &Vec<Node>)
        ensures
            views(rows@) == self@.nodes,
    {
        &self.nodes
    }

    /// The settings, in the order of their keys.
    pub fn settings(&self) -> (rows: &Vec<Setting>)
        ensures
            views(rows@) == self@.settings,
    {
        &self.settings
    }
}

} // verus!
