//! The rows of the four tables, the inputs that create and patch them, and
//! the mathematical view of each.

use vstd::prelude::*;

verus! {

/// The rows of a table as plain values.
pub open spec fn views<T: View>(rows: Seq<T>) -> Seq<T::V> {
    Seq::new(rows.len(), |i: int| rows[i]@)
}

/// The text of an optional string.
pub open spec fn text_of(o: Option<String>) -> Option<Seq<char>> {
    match o {
        Some(s) => Some(s@),
        None => None,
    }
}

/// The text of an optional, nullable string: absent, null, or a value.
pub open spec fn patch_text_of(o: Option<Option<String>>) -> Option<Option<Seq<char>>> {
    match o {
        Some(inner) => Some(text_of(inner)),
        None => None,
    }
}

/// Copies an optional, nullable string.
fn copy_patch_text(o: &Option<Option<String>>) -> (r: Option<Option<String>>)
    ensures
        r == *o,
{
    match o {
        Some(inner) => Some(copy_text(inner)),
        None => None,
    }
}

/// Copies an optional string.
fn copy_text(o: &Option<String>) -> (r: Option<String>)
    ensures
        r == *o,
{
    match o {
        Some(s) => Some(s.clone()),
        None => None,
    }
}

/// A container for related conversation trees.
#[derive(Debug, PartialEq, Eq)]
pub struct Project {
    pub id: String,
    pub name: String,
    pub created_at: String,
    pub updated_at: Option<String>,
    pub deleted_at: Option<String>,
}

/// A project row as plain values.
pub struct ProjectView {
    pub id: Seq<char>,
    pub name: Seq<char>,
    pub created_at: Seq<char>,
    pub updated_at: Option<Seq<char>>,
    pub deleted_at: Option<Seq<char>>,
}

impl View for Project {
    type V = ProjectView;

    open spec fn view(&self) -> ProjectView {
        ProjectView {
            id: self.id@,
            name: self.name@,
            created_at: self.created_at@,
            updated_at: text_of(self.updated_at),
            deleted_at: text_of(self.deleted_at),
        }
    }
}

impl Clone for Project {
    fn clone(&self) -> (r: Self)
        ensures
            r == *self,
    {
        Project {
            id: self.id.clone(),
            name: self.name.clone(),
            created_at: self.created_at.clone(),
            updated_at: copy_text(&self.updated_at),
            deleted_at: copy_text(&self.deleted_at),
        }
    }
}

/// A branching conversation; `project_id` is `None` while it sits in staging.
#[derive(Debug, PartialEq, Eq)]
pub struct Tree {
    pub id: String,
    pub project_id: Option<String>,
    pub name: String,
    pub system_prompt: Option<String>,
    pub created_at: String,
    pub updated_at: Option<String>,
    pub deleted_at: Option<String>,
}

/// A tree row as plain values.
pub struct TreeView {
    pub id: Seq<char>,
    pub project_id: Option<Seq<char>>,
    pub name: Seq<char>,
    pub system_prompt: Option<Seq<char>>,
    pub created_at: Seq<char>,
    pub updated_at: Option<Seq<char>>,
    pub deleted_at: Option<Seq<char>>,
}

impl View for Tree {
    type V = TreeView;

    open spec fn view(&self) -> TreeView {
        TreeView {
            id: self.id@,
            project_id: text_of(self.project_id),
            name: self.name@,
            system_prompt: text_of(self.system_prompt),
            created_at: self.created_at@,
            updated_at: text_of(self.updated_at),
            deleted_at: text_of(self.deleted_at),
        }
    }
}

impl Clone for Tree {
    fn clone(&self) -> (r: Self)
        ensures
            r == *self,
    {
        Tree {
            id: self.id.clone(),
            project_id: copy_text(&self.project_id),
            name: self.name.clone(),
            system_prompt: copy_text(&self.system_prompt),
            created_at: self.created_at.clone(),
            updated_at: copy_text(&self.updated_at),
            deleted_at: copy_text(&self.deleted_at),
        }
    }
}

impl Tree {
    /// Whether the tree belongs to the project `project_id`.
    pub fn is_in_project(&self, project_id: &String) -> (r: bool)
        ensures
            r == (self@.project_id == Some(project_id@)),
    {
        match &self.project_id {
            Some(p) => *p == *project_id,
            None => false,
        }
    }
}

/// One conversation turn: a user prompt and, once generated, its answer.
#[derive(Debug, PartialEq, Eq)]
pub struct Node {
    pub id: String,
    pub tree_id: String,
    pub parent_id: Option<String>,
    pub user_content: String,
    pub assistant_content: Option<String>,
    pub summary: Option<String>,
    pub model: Option<String>,
    pub tokens: Option<i32>,
    pub created_at: String,
    pub updated_at: Option<String>,
    pub deleted_at: Option<String>,
    pub failed: bool,
}

/// A node row as plain values.
pub struct NodeView {
    pub id: Seq<char>,
    pub tree_id: Seq<char>,
    pub parent_id: Option<Seq<char>>,
    pub user_content: Seq<char>,
    pub assistant_content: Option<Seq<char>>,
    pub summary: Option<Seq<char>>,
    pub model: Option<Seq<char>>,
    pub tokens: Option<i32>,
    pub created_at: Seq<char>,
    pub updated_at: Option<Seq<char>>,
    pub deleted_at: Option<Seq<char>>,
    pub failed: bool,
}

impl View for Node {
    type V = NodeView;

    open spec fn view(&self) -> NodeView {
        NodeView {
            id: self.id@,
            tree_id: self.tree_id@,
            parent_id: text_of(self.parent_id),
            user_content: self.user_content@,
            assistant_content: text_of(self.assistant_content),
            summary: text_of(self.summary),
            model: text_of(self.model),
            tokens: self.tokens,
            created_at: self.created_at@,
            updated_at: text_of(self.updated_at),
            deleted_at: text_of(self.deleted_at),
            failed: self.failed,
        }
    }
}

impl Clone for Node {
    fn clone(&self) -> (r: Self)
        ensures
            r == *self,
    {
        Node {
            id: self.id.clone(),
            tree_id: self.tree_id.clone(),
            parent_id: copy_text(&self.parent_id),
            user_content: self.user_content.clone(),
            assistant_content: copy_text(&self.assistant_content),
            summary: copy_text(&self.summary),
            model: copy_text(&self.model),
            tokens: self.tokens,
            created_at: self.created_at.clone(),
            updated_at: copy_text(&self.updated_at),
            deleted_at: copy_text(&self.deleted_at),
            failed: self.failed,
        }
    }
}

impl Node {
    /// Whether the node names `parent_id` as its parent.
    pub fn is_child_of(&self, parent_id: &String) -> (r: bool)
        ensures
            r == (self@.parent_id == Some(parent_id@)),
    {
        match &self.parent_id {
            Some(p) => *p == *parent_id,
            None => false,
        }
    }
}

/// A key-value configuration entry.
#[derive(Debug, PartialEq, Eq)]
pub struct Setting {
    pub key: String,
    pub value: String,
    pub created_at: String,
    pub updated_at: Option<String>,
}

/// A setting row as plain values.
pub struct SettingView {
    pub key: Seq<char>,
    pub value: Seq<char>,
    pub created_at: Seq<char>,
    pub updated_at: Option<Seq<char>>,
}

impl View for Setting {
    type V = SettingView;

    open spec fn view(&self) -> SettingView {
        SettingView {
            key: self.key@,
            value: self.value@,
            created_at: self.created_at@,
            updated_at: text_of(self.updated_at),
        }
    }
}

impl Clone for Setting {
    fn clone(&self) -> (r: Self)
        ensures
            r == *self,
    {
        Setting {
            key: self.key.clone(),
            value: self.value.clone(),
            created_at: self.created_at.clone(),
            updated_at: copy_text(&self.updated_at),
        }
    }
}

/// The fields a caller supplies for a new project.
#[derive(Debug, PartialEq, Eq)]
pub struct CreateProject {
    pub name: String,
}

/// The input of a project create as plain values.
pub struct CreateProjectView {
    pub name: Seq<char>,
}

impl Clone for CreateProject {
    fn clone(&self) -> (r: Self)
        ensures
            r == *self,
    {
        CreateProject {
            name: self.name.clone(),
        }
    }
}

impl View for CreateProject {
    type V = CreateProjectView;

    open spec fn view(&self) -> CreateProjectView {
        CreateProjectView { name: self.name@ }
    }
}

/// A sparse patch of a project: `None` leaves the field as it is.
#[derive(Debug, PartialEq, Eq)]
pub struct UpdateProject {
    pub name: Option<String>,
}

/// A project patch as plain values.
pub struct UpdateProjectView {
    pub name: Option<Seq<char>>,
}

impl Clone for UpdateProject {
    fn clone(&self) -> (r: Self)
        ensures
            r == *self,
    {
        UpdateProject {
            name: copy_text(&self.name),
        }
    }
}

impl View for UpdateProject {
    type V = UpdateProjectView;

    open spec fn view(&self) -> UpdateProjectView {
        UpdateProjectView { name: text_of(self.name) }
    }
}

/// The fields a caller supplies for a new tree.
#[derive(Debug, PartialEq, Eq)]
pub struct CreateTree {
    pub project_id: Option<String>,
    pub name: String,
    pub system_prompt: Option<String>,
}

/// The input of a tree create as plain values.
pub struct CreateTreeView {
    pub project_id: Option<Seq<char>>,
    pub name: Seq<char>,
    pub system_prompt: Option<Seq<char>>,
}

impl Clone for CreateTree {
    fn clone(&self) -> (r: Self)
        ensures
            r == *self,
    {
        CreateTree {
            project_id: copy_text(&self.project_id),
            name: self.name.clone(),
            system_prompt: copy_text(&self.system_prompt),
        }
    }
}

impl View for CreateTree {
    type V = CreateTreeView;

    open spec fn view(&self) -> CreateTreeView {
        CreateTreeView {
            project_id: text_of(self.project_id),
            name: self.name@,
            system_prompt: text_of(self.system_prompt),
        }
    }
}

/// A sparse patch of a tree. For a nullable column the outer `Option` says
/// whether the field is touched and the inner one is the value to store, so
/// `Some(None)` stores null.
#[derive(Debug, PartialEq, Eq)]
pub struct UpdateTree {
    pub project_id: Option<Option<String>>,
    pub name: Option<String>,
    pub system_prompt: Option<Option<String>>,
}

/// A tree patch as plain values.
pub struct UpdateTreeView {
    pub project_id: Option<Option<Seq<char>>>,
    pub name: Option<Seq<char>>,
    pub system_prompt: Option<Option<Seq<char>>>,
}

impl Clone for UpdateTree {
    fn clone(&self) -> (r: Self)
        ensures
            r == *self,
    {
        UpdateTree {
            project_id: copy_patch_text(&self.project_id),
            name: copy_text(&self.name),
            system_prompt: copy_patch_text(&self.system_prompt),
        }
    }
}

impl View for UpdateTree {
    type V = UpdateTreeView;

    open spec fn view(&self) -> UpdateTreeView {
        UpdateTreeView {
            project_id: patch_text_of(self.project_id),
            name: text_of(self.name),
            system_prompt: patch_text_of(self.system_prompt),
        }
    }
}

/// The fields a caller supplies for a new node.
#[derive(Debug, PartialEq, Eq)]
pub struct CreateNode {
    pub tree_id: String,
    pub parent_id: Option<String>,
    pub user_content: String,
    pub assistant_content: Option<String>,
    pub summary: Option<String>,
    pub model: Option<String>,
    pub tokens: Option<i32>,
}

/// The input of a node create as plain values.
pub struct CreateNodeView {
    pub tree_id: Seq<char>,
    pub parent_id: Option<Seq<char>>,
    pub user_content: Seq<char>,
    pub assistant_content: Option<Seq<char>>,
    pub summary: Option<Seq<char>>,
    pub model: Option<Seq<char>>,
    pub tokens: Option<i32>,
}

impl Clone for CreateNode {
    fn clone(&self) -> (r: Self)
        ensures
            r == *self,
    {
        CreateNode {
            tree_id: self.tree_id.clone(),
            parent_id: copy_text(&self.parent_id),
            user_content: self.user_content.clone(),
            assistant_content: copy_text(&self.assistant_content),
            summary: copy_text(&self.summary),
            model: copy_text(&self.model),
            tokens: self.tokens,
        }
    }
}

impl View for CreateNode {
    type V = CreateNodeView;

    open spec fn view(&self) -> CreateNodeView {
        CreateNodeView {
            tree_id: self.tree_id@,
            parent_id: text_of(self.parent_id),
            user_content: self.user_content@,
            assistant_content: text_of(self.assistant_content),
            summary: text_of(self.summary),
            model: text_of(self.model),
            tokens: self.tokens,
        }
    }
}

/// A sparse patch of a node, read as [`UpdateTree`] is. Neither the id nor
/// the tree or parent link can be patched.
#[derive(Debug, PartialEq, Eq)]
pub struct UpdateNode {
    pub user_content: Option<String>,
    pub assistant_content: Option<Option<String>>,
    pub summary: Option<Option<String>>,
    pub model: Option<Option<String>>,
    pub tokens: Option<Option<i32>>,
    pub failed: Option<bool>,
}

/// A node patch as plain values.
pub struct UpdateNodeView {
    pub user_content: Option<Seq<char>>,
    pub assistant_content: Option<Option<Seq<char>>>,
    pub summary: Option<Option<Seq<char>>>,
    pub model: Option<Option<Seq<char>>>,
    pub tokens: Option<Option<i32>>,
    pub failed: Option<bool>,
}

impl Clone for UpdateNode {
    fn clone(&self) -> (r: Self)
        ensures
            r == *self,
    {
        UpdateNode {
            user_content: copy_text(&self.user_content),
            assistant_content: copy_patch_text(&self.assistant_content),
            summary: copy_patch_text(&self.summary),
            model: copy_patch_text(&self.model),
            tokens: self.tokens,
            failed: self.failed,
        }
    }
}

impl View for UpdateNode {
    type V = UpdateNodeView;

    open spec fn view(&self) -> UpdateNodeView {
        UpdateNodeView {
            user_content: text_of(self.user_content),
            assistant_content: patch_text_of(self.assistant_content),
            summary: patch_text_of(self.summary),
            model: patch_text_of(self.model),
            tokens: self.tokens,
            failed: self.failed,
        }
    }
}

} // verus!
