use json_api::collections::OrderedMap;
use json_api::fields::Key;
use json_api::query::{self, Query};
use json_api::resource::{
    compound, to_doc, to_member_doc, Data, Document, Identifier, Linkage, Object, Resource, Value,
};

fn key(s: &str) -> Key {
    Key::try_from(s).unwrap()
}

fn ident(kind: &str, id: &str) -> Identifier {
    Identifier { kind: key(kind), id: id.to_string() }
}

fn object(kind: &str, id: &str, attrs: &[(&str, &str)], rels: Vec<(&str, Linkage)>) -> Object {
    let mut attributes = OrderedMap::new();
    for (k, v) in attrs {
        attributes.insert(key(k), Value::String(v.to_string()));
    }
    let mut relationships = OrderedMap::new();
    for (k, l) in rels {
        relationships.insert(key(k), l);
    }
    Object {
        kind: key(kind),
        id: id.to_string(),
        attributes,
        relationships,
        links: OrderedMap::new(),
        meta: OrderedMap::new(),
    }
}

fn article() -> Object {
    object(
        "articles",
        "1",
        &[("title", "Hello"), ("body", "World")],
        vec![
            ("author", Linkage::One(ident("people", "9"))),
            ("comments", Linkage::Many(vec![ident("comments", "5"), ident("comments", "12")])),
        ],
    )
}

fn pool() -> Vec<Object> {
    vec![
        object("people", "9", &[("name", "Dan")], vec![]),
        object(
            "comments",
            "5",
            &[("body", "First")],
            vec![("author", Linkage::One(ident("people", "2")))],
        ),
        object(
            "comments",
            "12",
            &[("body", "Second")],
            vec![("author", Linkage::One(ident("people", "9")))],
        ),
        object("people", "2", &[("name", "Ann")], vec![]),
    ]
}

fn included_ids(doc: &Document) -> Vec<(String, String)> {
    match doc {
        Document::Success { included: Some(v), .. } => v
            .iter()
            .map(|o| (o.kind.as_str().to_string(), o.id.clone()))
            .collect(),
        _ => panic!("no included resources"),
    }
}

#[test]
fn to_one_relationship_is_included_once() {
    let q = query::from_str("include=author").unwrap();
    let doc = compound(vec![article()], pool(), &q);
    assert_eq!(included_ids(&doc), vec![("people".to_string(), "9".to_string())]);

    let q = query::from_str("include=author,author&include=author").unwrap();
    let doc = compound(vec![article()], pool(), &q);
    assert_eq!(included_ids(&doc), vec![("people".to_string(), "9".to_string())]);
}

#[test]
fn overlapping_paths_do_not_duplicate() {
    let q = query::from_str("include=author,comments.author").unwrap();
    let doc = compound(vec![article()], pool(), &q);
    assert_eq!(
        included_ids(&doc),
        vec![
            ("people".to_string(), "9".to_string()),
            ("comments".to_string(), "5".to_string()),
            ("comments".to_string(), "12".to_string()),
            ("people".to_string(), "2".to_string()),
        ]
    );
}

#[test]
fn no_paths_leaves_included_out() {
    let doc = compound(vec![article()], pool(), &Query::default());
    match doc {
        Document::Success { data: Data::Collection(data), included, .. } => {
            assert!(included.is_none());
            assert_eq!(data.len(), 1);
            assert_eq!(data[0].attributes.len(), 2);
        }
        _ => panic!("expected a success document"),
    }
}

#[test]
fn fieldsets_cut_attributes() {
    let q = query::from_str("fields[articles]=body&include=author&fields[people]=age").unwrap();
    let doc = compound(vec![article()], pool(), &q);
    match doc {
        Document::Success { data: Data::Collection(data), included: Some(inc), .. } => {
            assert_eq!(data[0].attributes.len(), 1);
            assert_eq!(data[0].attributes.key(0).as_str(), "body");
            assert_eq!(data[0].relationships.len(), 2);
            assert_eq!(inc[0].attributes.len(), 0);
        }
        _ => panic!("expected included resources"),
    }
}

struct Post {
    id: u32,
    title: String,
    author: u32,
}

impl Resource for Post {
    fn kind() -> Key {
        key("posts")
    }

    fn id(&self) -> String {
        self.id.to_string()
    }

    fn attributes(&self) -> OrderedMap<Key, Value> {
        let mut m = OrderedMap::new();
        m.insert(key("title"), Value::String(self.title.clone()));
        m.insert(key("draft"), Value::Bool(false));
        m
    }

    fn relationships(&self) -> OrderedMap<Key, Linkage> {
        let mut m = OrderedMap::new();
        m.insert(key("author"), Linkage::One(ident("people", &self.author.to_string())));
        m
    }
}

#[test]
fn domain_type_encodes_through_capabilities() {
    let posts = vec![Post { id: 3, title: "Hi".to_string(), author: 9 }];
    let q = query::from_str("include=author").unwrap();
    let doc = to_doc(&posts, pool(), &q);
    match &doc {
        Document::Success { data: Data::Collection(data), .. } => {
            assert_eq!(data.len(), 1);
            assert_eq!(data[0].kind.as_str(), "posts");
            assert_eq!(data[0].id, "3");
            assert_eq!(data[0].attributes.key(0).as_str(), "title");
            assert_eq!(data[0].attributes.key(1).as_str(), "draft");
            assert_eq!(*data[0].attributes.value(0), Value::String("Hi".to_string()));
            assert_eq!(
                *data[0].relationships.value(0),
                Linkage::One(ident("people", "9"))
            );
        }
        _ => panic!("expected a success document"),
    }
    assert_eq!(included_ids(&doc), vec![("people".to_string(), "9".to_string())]);
}

#[test]
fn single_resource_is_one_object() {
    let post = Post { id: 4, title: "One".to_string(), author: 2 };
    let doc = to_member_doc(&post, pool(), &Query::default());
    match doc {
        Document::Success { data: Data::Member(o), included, .. } => {
            assert_eq!(o.kind.as_str(), "posts");
            assert_eq!(o.id, "4");
            assert!(included.is_none());
        }
        _ => panic!("expected a single primary object"),
    }
}
