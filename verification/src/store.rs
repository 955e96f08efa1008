//! The verified storage engine: schema manager, tag resolver, bookmark
//! writer and bookmark reader, over the trusted store boundary of
//! [`crate::db`].

use vstd::prelude::*;

verus! {

use crate::db;
use crate::db::{
    BmarkRowV, JoinRow, JoinRowV, LinkRowV, StoreState, TagRowV, committed_of, in_txn_of,
    join_bmarks, join_of, join_row_of, links_of, opt_string_view, opt_view, state_of,
};
use crate::err::BMarkError;

/// A task the command-line surface can ask of the store.
pub enum BMarkTask {
    Setup { dbpath: Option<String> },
    Add {
        url: String,
        name: String,
        tags: Vec<String>,
        desc: Option<String>,
        category: Option<String>,
    },
    List { output: Option<OutputType>, cols: ListColumn, tag_mode: TagMode },
}

/// Which bookmarks a listing returns: all of them, or those matching a tag
/// set.
#[derive(Clone)]
pub enum OutputType {
    All,
    Tag(Vec<String>),
}

/// Which columns a listing projects; tags are always aggregated, never
/// chosen individually.
#[derive(Clone)]
pub enum ListColumn {
    All,
    Url,
    Tag,
    Desc,
}

/// Whether a tag-filtered listing requires all requested tags or at least
/// one of them.
pub enum TagMode {
    All,
    Any,
}

/// An assembled bookmark record, as a listing returns it: one record per
/// bookmark, with all its tag names aggregated in insertion order.
#[derive(Debug)]
pub struct Bookmark {
    pub url: String,
    pub name: Option<String>,
    pub tag: Vec<String>,
    pub desc: Option<String>,
    pub category: Option<String>,
}

/// The mathematical value of a [`Bookmark`].
pub ghost struct BookmarkV {
    pub url: Seq<char>,
    pub name: Option<Seq<char>>,
    pub tag: Seq<Seq<char>>,
    pub desc: Option<Seq<char>>,
    pub category: Option<Seq<char>>,
}

impl View for Bookmark {
    type V = BookmarkV;

    open spec fn view(&self) -> BookmarkV {
        BookmarkV {
            url: self.url@,
            name: opt_string_view(self.name),
            tag: self.tag.deep_view(),
            desc: opt_string_view(self.desc),
            category: opt_string_view(self.category),
        }
    }
}

impl DeepView for Bookmark {
    type V = BookmarkV;

    open spec fn deep_view(&self) -> BookmarkV {
        self.view()
    }
}

/// The three table names the schema consists of.
pub open spec fn schema_ok(s: StoreState) -> bool {
    &&& s.tables.contains("bmark"@)
    &&& s.tables.contains("tag"@)
    &&& s.tables.contains("bmark_tag"@)
}

/// What a successful `setup` does to the store: the three tables, none of
/// which existed, now exist and are empty; nothing else changes.
pub open spec fn setup_post(pre: StoreState, post: StoreState) -> bool {
    &&& !pre.tables.contains("bmark"@)
    &&& !pre.tables.contains("tag"@)
    &&& !pre.tables.contains("bmark_tag"@)
    &&& post.tables == pre.tables.insert("bmark"@).insert("tag"@).insert("bmark_tag"@)
    &&& post.bmarks == Seq::<BmarkRowV>::empty()
    &&& post.tags == Seq::<TagRowV>::empty()
    &&& post.links == Seq::<LinkRowV>::empty()
}

/// Law: a completed setup leaves the schema in place — the store then
/// reports itself ready, and only then.
pub proof fn lemma_setup_makes_ready(pre: StoreState, post: StoreState)
    requires
        setup_post(pre, post),
    ensures
        schema_ok(post),
        !schema_ok(pre),
{
}

/// The bookmark store: one connection to one SQLite database file.
pub struct BMark {
    conn: rusqlite::Connection,
}

impl BMark {
    /// The store contents this handle currently sees.
    pub closed spec fn state(&self) -> StoreState {
        state_of(self.conn)
    }

    /// Between calls the handle is in autocommit mode: no transaction is
    /// open and everything it sees is committed.
    pub closed spec fn inv(&self) -> bool {
        &&& !in_txn_of(self.conn)
        &&& state_of(self.conn) == committed_of(self.conn)
    }

    /// Open (creating the file if absent, never truncating) the store at
    /// `path`. A path that cannot be opened is a configuration error.
    pub fn new(path: &str) -> (r: Result<BMark, BMarkError>)
        ensures
            match r {
                Ok(b) => b.inv(),
                Err(e) => e is Config,
            },
    {
        match db::open_file(path) {
            Ok(c) => Ok(BMark { conn: c }),
            Err(e) => Err(e),
        }
    }

    /// Open a fresh, empty, in-memory store.
    pub fn new_in_memory() -> (r: Result<BMark, BMarkError>)
        ensures
            match r {
                Ok(b) => b.inv() && b.state() == db::empty_store(),
                Err(_) => true,
            },
    {
        match db::open_memory() {
            Ok(c) => Ok(BMark { conn: c }),
            Err(e) => Err(e),
        }
    }

    /// Create the three tables of the schema, atomically: on success all
    /// three are new and empty; on failure (for instance when the schema
    /// already exists) the store is exactly as it was.
    pub fn setup(&mut self) -> (r: Result<(), BMarkError>)
        requires
            old(self).inv(),
        ensures
            final(self).inv(),
            match r {
                Ok(_) => setup_post(old(self).state(), final(self).state()),
                Err(_) => final(self).state() == old(self).state(),
            },
    {
        match db::begin_txn(&mut self.conn) {
            Ok(_) => {},
            Err(e) => {
                return Err(e);
            },
        }
        match db::create_bmark_table(&mut self.conn) {
            Ok(_) => {},
            Err(e) => {
                db::rollback_txn(&mut self.conn);
                return Err(e);
            },
        }
        match db::create_tag_table(&mut self.conn) {
            Ok(_) => {},
            Err(e) => {
                db::rollback_txn(&mut self.conn);
                return Err(e);
            },
        }
        match db::create_link_table(&mut self.conn) {
            Ok(_) => {},
            Err(e) => {
                db::rollback_txn(&mut self.conn);
                return Err(e);
            },
        }
        match db::commit_txn(&mut self.conn) {
            Ok(_) => Ok(()),
            Err(e) => {
                db::rollback_txn(&mut self.conn);
                Err(e)
            },
        }
    }

    /// Insert one bookmark with its tags, atomically: resolve the requested
    /// tag names against the `tag` table, then, in one transaction, write
    /// the bookmark row, one tag row per name not already present, and one
    /// association row per resolved tag. On any failure the transaction
    /// rolls back and the store is exactly as before the call; an empty url
    /// is rejected before any store access, and only an empty url is.
    pub fn insert(
        &mut self,
        url: &str,
        name: Option<&str>,
        tags: Vec<&str>,
        desc: Option<&str>,
        category: Option<&str>,
    ) -> (r: Result<(), BMarkError>)
        requires
            old(self).inv(),
        ensures
            final(self).inv(),
            match r {
                Ok(_) => url@.len() > 0 && insert_post(
                    old(self).state(),
                    final(self).state(),
                    url@,
                    opt_view(name),
                    tags.deep_view(),
                    opt_view(desc),
                    opt_view(category),
                ),
                Err(_) => final(self).state() == old(self).state(),
            },
            (r matches Err(BMarkError::Validation(_))) <==> url@.len() == 0,
    {
        let ghost pre = state_of(self.conn);
        let ghost nv = tags.deep_view();

        if url.is_empty() {
            return Err(
                BMarkError::Validation("a url is required and must not be empty".to_owned()),
            );
        }
        let epoch = crate::date::now_epoch_secs();
        let dt = crate::date::get_datetime_for_epochs(epoch);
        let ts = dt.to_string();
        let bid = db::new_v7_id(epoch);

        match db::begin_txn(&mut self.conn) {
            Ok(_) => {},
            Err(e) => {
                return Err(e);
            },
        }
        // Tag resolution: look each requested name up, in request order;
        // an existing name resolves to its current identifier, a missing
        // one to a freshly generated identifier and a pending tag row.
        let mut ids: Vec<String> = Vec::new();
        let mut is_new: Vec<bool> = Vec::new();
        let mut k: usize = 0;
        while k < tags.len()
            invariant
                pre == old(self).state(),
                url@.len() > 0,
                in_txn_of(self.conn),
                state_of(self.conn) == pre,
                committed_of(self.conn) == pre,
                nv == tags.deep_view(),
                k <= tags.len(),
                ids.len() == k,
                is_new.len() == k,
                forall|j: int| 0 <= j < k ==> is_new@[j] == !tag_name_present(pre.tags, nv[j]),
                forall|j: int|
                    0 <= j < k && !is_new@[j] ==> tag_has(pre.tags, nv[j], ids@[j]@),
            decreases tags.len() - k,
        {
            proof {
                assert(nv[k as int] == tags@[k as int]@);
            }
            match db::query_tag_id(&self.conn, tags[k]) {
                Ok(Some(tid)) => {
                    ids.push(tid);
                    is_new.push(false);
                },
                Ok(None) => {
                    let fresh = db::new_v7_id(epoch);
                    ids.push(fresh);
                    is_new.push(true);
                },
                Err(e) => {
                    db::rollback_txn(&mut self.conn);
                    return Err(e);
                },
            }
            k = k + 1;
        }
        let ghost idsv = ids.deep_view();
        proof {
            assert forall|j: int| 0 <= j < nv.len() implies idsv[j] == ids@[j]@ by {}
        }
        // The bookmark row itself.
        match db::insert_bmark_row(
            &mut self.conn,
            bid.as_str(),
            url,
            name,
            desc,
            category,
            ts.as_str(),
        ) {
            Ok(_) => {},
            Err(e) => {
                db::rollback_txn(&mut self.conn);
                return Err(e);
            },
        }
        let ghost s1 = state_of(self.conn);
        // One tag row per name that was not present.
        proof {
            assert(created_tag_rows(pre.tags, nv.take(0), idsv.take(0), ts@)
                =~= Seq::<TagRowV>::empty());
            assert(pre.tags + created_tag_rows(pre.tags, nv.take(0), idsv.take(0), ts@)
                =~= pre.tags);
        }
        let mut k2: usize = 0;
        while k2 < tags.len()
            invariant
                pre == old(self).state(),
                url@.len() > 0,
                in_txn_of(self.conn),
                committed_of(self.conn) == pre,
                nv == tags.deep_view(),
                idsv == ids.deep_view(),
                k2 <= tags.len(),
                ids.len() == tags.len(),
                is_new.len() == tags.len(),
                nv.len() == tags.len(),
                idsv.len() == tags.len(),
                forall|j: int| 0 <= j < nv.len() ==> idsv[j] == ids@[j]@,
                forall|j: int|
                    0 <= j < tags.len() ==> is_new@[j] == !tag_name_present(pre.tags, nv[j]),
                forall|j: int|
                    0 <= j < tags.len() && !is_new@[j] ==> tag_has(pre.tags, nv[j], idsv[j]),
                s1 == (StoreState {
                    bmarks: pre.bmarks.push(
                        BmarkRowV {
                            id: bid@,
                            url: url@,
                            name: opt_view(name),
                            desc: opt_view(desc),
                            category: opt_view(category),
                            added_at: ts@,
                        },
                    ),
                    ..pre
                }),
                forall|i: int| 0 <= i < pre.bmarks.len() ==> pre.bmarks[i].id != bid@,
                state_of(self.conn) == (StoreState {
                    tags: pre.tags + created_tag_rows(
                        pre.tags,
                        nv.take(k2 as int),
                        idsv.take(k2 as int),
                        ts@,
                    ),
                    ..s1
                }),
                forall|j1: int, j2: int|
                    0 <= j1 < j2 < k2 && !tag_name_present(pre.tags, nv[j2]) ==> nv[j1] != nv[j2],
            decreases tags.len() - k2,
        {
            let ghost cur = state_of(self.conn);
            let ghost done = created_tag_rows(pre.tags, nv.take(k2 as int), idsv.take(k2 as int), ts@);
            proof {
                assert(nv.take(k2 as int + 1) =~= nv.take(k2 as int).push(nv[k2 as int]));
                assert(idsv.take(k2 as int + 1) =~= idsv.take(k2 as int).push(idsv[k2 as int]));
                lemma_created_snoc(
                    pre.tags,
                    nv.take(k2 as int),
                    idsv.take(k2 as int),
                    ts@,
                    nv[k2 as int],
                    idsv[k2 as int],
                );
            }
            if is_new[k2] {
                match db::insert_tag_row(&mut self.conn, ids[k2].as_str(), tags[k2], ts.as_str()) {
                    Ok(_) => {
                        proof {
                            assert(nv[k2 as int] == tags@[k2 as int]@);
                            // the freshly checked uniqueness extends the
                            // pairwise distinctness of the created names
                            assert forall|j1: int|
                                0 <= j1 < k2 implies nv[j1] != nv[k2 as int] by {
                                if tag_name_present(pre.tags, nv[j1]) {
                                    let i0 = choose|i: int|
                                        0 <= i < pre.tags.len() && pre.tags[i].name == nv[j1];
                                    assert(cur.tags[i0].name == nv[j1]);
                                } else {
                                    lemma_created_contains(
                                        pre.tags,
                                        nv.take(k2 as int),
                                        idsv.take(k2 as int),
                                        ts@,
                                        j1,
                                    );
                                    let x = choose|x: int|
                                        0 <= x < done.len() && done[x] == (TagRowV {
                                            id: idsv.take(k2 as int)[j1],
                                            name: nv.take(k2 as int)[j1],
                                            added_at: ts@,
                                        });
                                    assert(cur.tags[pre.tags.len() + x].name == nv[j1]);
                                }
                            }
                            assert(state_of(self.conn).tags =~= pre.tags + created_tag_rows(
                                pre.tags,
                                nv.take(k2 as int + 1),
                                idsv.take(k2 as int + 1),
                                ts@,
                            ));
                        }
                    },
                    Err(e) => {
                        db::rollback_txn(&mut self.conn);
                        return Err(e);
                    },
                }
            } else {
                proof {
                    assert(created_tag_rows(
                        pre.tags,
                        nv.take(k2 as int + 1),
                        idsv.take(k2 as int + 1),
                        ts@,
                    ) =~= done);
                }
            }
            k2 = k2 + 1;
        }
        let ghost s2 = state_of(self.conn);
        proof {
            assert(nv.take(nv.len() as int) =~= nv);
            assert(idsv.take(idsv.len() as int) =~= idsv);
        }
        // One association row per resolved tag identifier.
        proof {
            assert(pre.links + link_rows(bid@, idsv.take(0), ts@) =~= pre.links);
        }
        let mut k3: usize = 0;
        while k3 < tags.len()
            invariant
                pre == old(self).state(),
                url@.len() > 0,
                in_txn_of(self.conn),
                committed_of(self.conn) == pre,
                idsv == ids.deep_view(),
                k3 <= tags.len(),
                ids.len() == tags.len(),
                idsv.len() == tags.len(),
                forall|j: int| 0 <= j < idsv.len() ==> idsv[j] == ids@[j]@,
                s2.links == pre.links,
                state_of(self.conn) == (StoreState {
                    links: pre.links + link_rows(bid@, idsv.take(k3 as int), ts@),
                    ..s2
                }),
            decreases tags.len() - k3,
        {
            match db::insert_link_row(&mut self.conn, bid.as_str(), ids[k3].as_str(), ts.as_str()) {
                Ok(_) => {
                    proof {
                        assert(link_rows(bid@, idsv.take(k3 as int + 1), ts@) =~= link_rows(
                            bid@,
                            idsv.take(k3 as int),
                            ts@,
                        ).push(LinkRowV { bmark_id: bid@, tag_id: idsv[k3 as int], created_at: ts@ }));
                        assert(state_of(self.conn).links =~= pre.links + link_rows(
                            bid@,
                            idsv.take(k3 as int + 1),
                            ts@,
                        ));
                    }
                },
                Err(e) => {
                    db::rollback_txn(&mut self.conn);
                    return Err(e);
                },
            }
            k3 = k3 + 1;
        }
        proof {
            assert(idsv.take(idsv.len() as int) =~= idsv);
        }
        match db::commit_txn(&mut self.conn) {
            Ok(_) => {
                proof {
                    assert forall|k: int|
                        0 <= k < nv.len() && tag_name_present(pre.tags, nv[k]) implies tag_has(
                        pre.tags,
                        nv[k],
                        idsv[k],
                    ) by {
                        assert(!is_new@[k]);
                    }
                    assert(insert_post_with(
                        pre,
                        state_of(self.conn),
                        url@,
                        opt_view(name),
                        nv,
                        opt_view(desc),
                        opt_view(category),
                        bid@,
                        ts@,
                        idsv,
                    ));
                }
                Ok(())
            },
            Err(e) => {
                db::rollback_txn(&mut self.conn);
                Err(e)
            },
        }
    }

    /// Whether all three tables of the schema are present in this store.
    pub fn is_ready(&self) -> (r: Result<bool, BMarkError>)
        ensures
            match r {
                Ok(b) => b == schema_ok(self.state()),
                Err(e) => !(e is Validation),
            },
    {
        let has_bmark = db::table_exists(&self.conn, "bmark")?;
        let has_tag = db::table_exists(&self.conn, "tag")?;
        let has_link = db::table_exists(&self.conn, "bmark_tag")?;
        Ok(has_bmark && has_tag && has_link)
    }

    /// List the bookmarks: one query joins the three tables, the result
    /// rows are re-aggregated into one record per bookmark (a bookmark
    /// without tags appears exactly once, with an empty tag sequence),
    /// the records are filtered by the requested output type and tag mode,
    /// and projected to the requested columns. The store hands the join
    /// rows back in an order it leaves unspecified, so the result is
    /// pinned relative to some ordering of that row multiset.
    pub fn list(&self, output: OutputType, cols: ListColumn, mode: TagMode) -> (r: Result<
        Vec<Bookmark>,
        BMarkError,
    >)
        ensures
            match r {
                Ok(out) => exists|rows: Seq<JoinRowV>|
                    #[trigger] rows.to_multiset() == join_of(self.state()).to_multiset()
                        && out.deep_view() == list_spec(rows, output, cols, mode),
                Err(e) => !(e is Validation),
            },
    {
        let rows = match db::query_join_rows(&self.conn) {
            Ok(v) => v,
            Err(e) => {
                return Err(e);
            },
        };
        let ghost rv = rows.deep_view();
        let groups = aggregate_rows(&rows);
        let ghost gv = aggregate_spec(rv);
        let mut out: Vec<Bookmark> = Vec::new();
        let mut i: usize = 0;
        proof {
            assert(gv.take(0) =~= Seq::<GroupV>::empty());
            assert(out.deep_view() =~= project_records(
                filter_records(gv.take(0), output, mode),
                cols,
            ));
        }
        while i < groups.len()
            invariant
                i <= groups.len(),
                groups.deep_view() == gv,
                gv.len() == groups.len(),
                out.deep_view() == project_records(
                    filter_records(gv.take(i as int), output, mode),
                    cols,
                ),
            decreases groups.len() - i,
        {
            let g = &groups[i];
            proof {
                assert(g@ == gv[i as int]);
                assert(gv.take(i as int + 1).drop_last() =~= gv.take(i as int));
                assert(gv.take(i as int + 1).last() == gv[i as int]);
            }
            let keep: bool = match &output {
                OutputType::All => true,
                OutputType::Tag(ws) => bookmark_matches(&g.bm, ws, &mode),
            };
            proof {
                assert(keep == keep_record(gv[i as int].bm, output, mode));
            }
            if keep {
                let ghost prevout = out.deep_view();
                let p = project_record(&g.bm, &cols);
                let ghost pv = p@;
                out.push(p);
                proof {
                    let f1 = filter_records(gv.take(i as int), output, mode);
                    let f2 = filter_records(gv.take(i as int + 1), output, mode);
                    assert(f2 == f1.push(gv[i as int]));
                    assert(pv == project_bm(gv[i as int].bm, cols));
                    assert(out.deep_view() =~= prevout.push(pv));
                    assert(project_records(f2, cols) =~= project_records(f1, cols).push(
                        project_bm(gv[i as int].bm, cols),
                    ));
                    assert(out.deep_view() == project_records(f2, cols));
                }
            } else {
                proof {
                    assert(filter_records(gv.take(i as int + 1), output, mode)
                        == filter_records(gv.take(i as int), output, mode));
                }
            }
            i = i + 1;
        }
        proof {
            assert(gv.take(gv.len() as int) =~= gv);
        }
        Ok(out)
    }
}

/// Whether some row of `tags` carries `name`.
pub open spec fn tag_name_present(tags: Seq<TagRowV>, name: Seq<char>) -> bool {
    exists|i: int| 0 <= i < tags.len() && tags[i].name == name
}

/// Whether some row of `tags` carries `name` with identifier `id`.
pub open spec fn tag_has(tags: Seq<TagRowV>, name: Seq<char>, id: Seq<char>) -> bool {
    exists|i: int| 0 <= i < tags.len() && tags[i].name == name && tags[i].id == id
}

/// The tag rows one insert creates: one row per requested name not already
/// present in `pre`, in request order, carrying the identifier aligned with
/// the name and the shared timestamp text.
pub open spec fn created_tag_rows(
    pre: Seq<TagRowV>,
    names: Seq<Seq<char>>,
    ids: Seq<Seq<char>>,
    ts: Seq<char>,
) -> Seq<TagRowV>
    decreases names.len(),
{
    if names.len() == 0 {
        Seq::empty()
    } else {
        let rest = created_tag_rows(pre, names.drop_first(), ids.drop_first(), ts);
        if tag_name_present(pre, names[0]) {
            rest
        } else {
            seq![TagRowV { id: ids[0], name: names[0], added_at: ts }] + rest
        }
    }
}

/// The association rows one insert creates: one per requested tag, in
/// request order.
pub open spec fn link_rows(bid: Seq<char>, ids: Seq<Seq<char>>, ts: Seq<char>) -> Seq<LinkRowV> {
    Seq::new(ids.len(), |k: int| LinkRowV { bmark_id: bid, tag_id: ids[k], created_at: ts })
}

/// What one successful insert with fresh bookmark identifier `bid`,
/// timestamp text `ts` and resolved tag identifiers `ids` (aligned with the
/// requested names `tags`) does to the store: one new bookmark row, the
/// newly needed tag rows, one association row per requested tag, and
/// nothing else. Requested names already present resolve to an existing
/// identifier, and the names created are pairwise distinct.
pub open spec fn insert_post_with(
    pre: StoreState,
    post: StoreState,
    url: Seq<char>,
    name: Option<Seq<char>>,
    tags: Seq<Seq<char>>,
    desc: Option<Seq<char>>,
    category: Option<Seq<char>>,
    bid: Seq<char>,
    ts: Seq<char>,
    ids: Seq<Seq<char>>,
) -> bool {
    &&& ids.len() == tags.len()
    &&& post.tables == pre.tables
    &&& (forall|i: int| 0 <= i < pre.bmarks.len() ==> pre.bmarks[i].id != bid)
    &&& post.bmarks == pre.bmarks.push(
        BmarkRowV { id: bid, url: url, name: name, desc: desc, category: category, added_at: ts },
    )
    &&& post.tags == pre.tags + created_tag_rows(pre.tags, tags, ids, ts)
    &&& post.links == pre.links + link_rows(bid, ids, ts)
    &&& (forall|k: int|
        0 <= k < tags.len() && tag_name_present(pre.tags, tags[k]) ==> tag_has(
            pre.tags,
            tags[k],
            ids[k],
        ))
    &&& (forall|j: int, k: int|
        0 <= j < k < tags.len() && !tag_name_present(pre.tags, tags[k]) ==> tags[j] != tags[k])
}

/// What one successful insert does to the store, for some fresh bookmark
/// identifier, timestamp text and resolved tag identifiers.
pub open spec fn insert_post(
    pre: StoreState,
    post: StoreState,
    url: Seq<char>,
    name: Option<Seq<char>>,
    tags: Seq<Seq<char>>,
    desc: Option<Seq<char>>,
    category: Option<Seq<char>>,
) -> bool {
    exists|bid: Seq<char>, ts: Seq<char>, ids: Seq<Seq<char>>|
        insert_post_with(pre, post, url, name, tags, desc, category, bid, ts, ids)
}

proof fn lemma_created_snoc(
    pre: Seq<TagRowV>,
    names: Seq<Seq<char>>,
    ids: Seq<Seq<char>>,
    ts: Seq<char>,
    n: Seq<char>,
    i: Seq<char>,
)
    requires
        names.len() == ids.len(),
    ensures
        created_tag_rows(pre, names.push(n), ids.push(i), ts) == created_tag_rows(
            pre,
            names,
            ids,
            ts,
        ) + (if tag_name_present(pre, n) {
            Seq::<TagRowV>::empty()
        } else {
            seq![TagRowV { id: i, name: n, added_at: ts }]
        }),
    decreases names.len(),
{
    let ns2 = names.push(n);
    let is2 = ids.push(i);
    let tail = if tag_name_present(pre, n) {
        Seq::<TagRowV>::empty()
    } else {
        seq![TagRowV { id: i, name: n, added_at: ts }]
    };
    if names.len() == 0 {
        assert(ns2.drop_first() =~= Seq::<Seq<char>>::empty());
        assert(is2.drop_first() =~= Seq::<Seq<char>>::empty());
        assert(created_tag_rows(pre, Seq::<Seq<char>>::empty(), Seq::<Seq<char>>::empty(), ts)
            == Seq::<TagRowV>::empty());
        assert(created_tag_rows(pre, ns2, is2, ts) =~= created_tag_rows(pre, names, ids, ts)
            + tail);
    } else {
        assert(ns2.drop_first() =~= names.drop_first().push(n));
        assert(is2.drop_first() =~= ids.drop_first().push(i));
        lemma_created_snoc(pre, names.drop_first(), ids.drop_first(), ts, n, i);
        let rest = created_tag_rows(pre, names.drop_first(), ids.drop_first(), ts);
        assert(created_tag_rows(pre, ns2.drop_first(), is2.drop_first(), ts) == rest + tail);
        assert(ns2[0] == names[0]);
        assert(is2[0] == ids[0]);
        if tag_name_present(pre, names[0]) {
            assert(created_tag_rows(pre, ns2, is2, ts) == rest + tail);
            assert(created_tag_rows(pre, names, ids, ts) == rest);
        } else {
            let head = seq![TagRowV { id: ids[0], name: names[0], added_at: ts }];
            assert(created_tag_rows(pre, ns2, is2, ts) == head + (rest + tail));
            assert(created_tag_rows(pre, names, ids, ts) == head + rest);
            assert(head + (rest + tail) =~= (head + rest) + tail);
        }
    }
}

proof fn lemma_created_contains(
    pre: Seq<TagRowV>,
    names: Seq<Seq<char>>,
    ids: Seq<Seq<char>>,
    ts: Seq<char>,
    j: int,
)
    requires
        names.len() == ids.len(),
        0 <= j < names.len(),
        !tag_name_present(pre, names[j]),
    ensures
        exists|x: int|
            0 <= x < created_tag_rows(pre, names, ids, ts).len() && created_tag_rows(
                pre,
                names,
                ids,
                ts,
            )[x] == (TagRowV { id: ids[j], name: names[j], added_at: ts }),
    decreases names.len(),
{
    let c = created_tag_rows(pre, names, ids, ts);
    let rest = created_tag_rows(pre, names.drop_first(), ids.drop_first(), ts);
    if j == 0 {
        assert(c[0] == (TagRowV { id: ids[0], name: names[0], added_at: ts }));
    } else {
        lemma_created_contains(pre, names.drop_first(), ids.drop_first(), ts, j - 1);
        let x0 = choose|x: int|
            0 <= x < rest.len() && rest[x] == (TagRowV {
                id: ids.drop_first()[j - 1],
                name: names.drop_first()[j - 1],
                added_at: ts,
            });
        if tag_name_present(pre, names[0]) {
            assert(c[x0] == (TagRowV { id: ids[j], name: names[j], added_at: ts }));
        } else {
            assert(c[x0 + 1] == (TagRowV { id: ids[j], name: names[j], added_at: ts }));
        }
    }
}

/// One aggregated record under construction, keyed by its bookmark
/// identifier.
struct GroupRec {
    id: String,
    bm: Bookmark,
}

/// The mathematical value of a grouped record: the bookmark identifier it
/// is keyed by, and the assembled record.
pub ghost struct GroupV {
    pub id: Seq<char>,
    pub bm: BookmarkV,
}

impl View for GroupRec {
    type V = GroupV;

    closed spec fn view(&self) -> GroupV {
        GroupV { id: self.id@, bm: self.bm@ }
    }
}

impl DeepView for GroupRec {
    type V = GroupV;

    closed spec fn deep_view(&self) -> GroupV {
        self.view()
    }
}

/// The first index of `recs` keyed by `id`, or -1 if none is.
pub open spec fn group_index_of(recs: Seq<GroupV>, id: Seq<char>) -> int
    decreases recs.len(),
{
    if recs.len() == 0 {
        -1
    } else if recs[0].id == id {
        0
    } else {
        let rest = group_index_of(recs.drop_first(), id);
        if rest < 0 {
            -1
        } else {
            rest + 1
        }
    }
}

/// Fold one more join row into the record of its bookmark: a present tag
/// name is appended to the aggregated tags, and the first present value
/// wins for name, description and category.
pub open spec fn merge_into(rec: GroupV, row: JoinRowV) -> GroupV {
    GroupV {
        id: rec.id,
        bm: BookmarkV {
            url: rec.bm.url,
            name: if rec.bm.name is None {
                row.name
            } else {
                rec.bm.name
            },
            tag: match row.tag {
                Some(t) => rec.bm.tag.push(t),
                None => rec.bm.tag,
            },
            desc: if rec.bm.desc is None {
                row.desc
            } else {
                rec.bm.desc
            },
            category: if rec.bm.category is None {
                row.category
            } else {
                rec.bm.category
            },
        },
    }
}

/// The record a join row starts when its bookmark was not seen yet.
pub open spec fn fresh_group(row: JoinRowV) -> GroupV {
    GroupV {
        id: row.id,
        bm: BookmarkV {
            url: row.url,
            name: row.name,
            tag: match row.tag {
                Some(t) => seq![t],
                None => Seq::empty(),
            },
            desc: row.desc,
            category: row.category,
        },
    }
}

/// Re-aggregate the one-row-per-tag join result: group rows by bookmark
/// identifier in order of first appearance, accumulating all tag names of
/// one bookmark, in row order, into one record.
pub open spec fn aggregate_spec(rows: Seq<JoinRowV>) -> Seq<GroupV>
    decreases rows.len(),
{
    if rows.len() == 0 {
        Seq::empty()
    } else {
        let prev = aggregate_spec(rows.drop_last());
        let i = group_index_of(prev, rows.last().id);
        if i >= 0 {
            prev.update(i, merge_into(prev[i], rows.last()))
        } else {
            prev.push(fresh_group(rows.last()))
        }
    }
}

/// Whether an assembled record matches the requested tag set: with mode
/// `All` it must carry every requested tag, with mode `Any` at least one.
pub open spec fn tag_match(bm: BookmarkV, wanted: Seq<Seq<char>>, mode: TagMode) -> bool {
    match mode {
        TagMode::All => forall|i: int| 0 <= i < wanted.len() ==> bm.tag.contains(wanted[i]),
        TagMode::Any => exists|i: int| 0 <= i < wanted.len() && bm.tag.contains(wanted[i]),
    }
}

/// Whether a listing keeps an assembled record: always, or by tag match.
pub open spec fn keep_record(bm: BookmarkV, output: OutputType, mode: TagMode) -> bool {
    match output {
        OutputType::All => true,
        OutputType::Tag(ws) => tag_match(bm, ws.deep_view(), mode),
    }
}

/// The records a listing keeps, in aggregation order.
pub open spec fn filter_records(recs: Seq<GroupV>, output: OutputType, mode: TagMode) -> Seq<
    GroupV,
>
    decreases recs.len(),
{
    if recs.len() == 0 {
        Seq::empty()
    } else {
        let rest = filter_records(recs.drop_last(), output, mode);
        if keep_record(recs.last().bm, output, mode) {
            rest.push(recs.last())
        } else {
            rest
        }
    }
}

/// Project one assembled record to the requested column subset: the url is
/// always kept, the other fields only where requested.
pub open spec fn project_bm(bm: BookmarkV, cols: ListColumn) -> BookmarkV {
    match cols {
        ListColumn::All => bm,
        ListColumn::Url => BookmarkV {
            url: bm.url,
            name: None,
            tag: Seq::empty(),
            desc: None,
            category: None,
        },
        ListColumn::Desc => BookmarkV {
            url: bm.url,
            name: None,
            tag: Seq::empty(),
            desc: bm.desc,
            category: None,
        },
        ListColumn::Tag => BookmarkV {
            url: bm.url,
            name: None,
            tag: bm.tag,
            desc: None,
            category: None,
        },
    }
}

pub open spec fn project_records(recs: Seq<GroupV>, cols: ListColumn) -> Seq<BookmarkV> {
    recs.map_values(|g: GroupV| project_bm(g.bm, cols))
}

/// What a listing of join rows `rows` returns: the rows re-aggregated into
/// one record per bookmark, filtered by the requested output type and tag
/// mode, and projected to the requested columns.
pub open spec fn list_spec(
    rows: Seq<JoinRowV>,
    output: OutputType,
    cols: ListColumn,
    mode: TagMode,
) -> Seq<BookmarkV> {
    project_records(filter_records(aggregate_spec(rows), output, mode), cols)
}

proof fn lemma_group_index_of_found(recs: Seq<GroupV>, id: Seq<char>, x: int)
    requires
        0 <= x < recs.len(),
        recs[x].id == id,
        forall|j: int| 0 <= j < x ==> recs[j].id != id,
    ensures
        group_index_of(recs, id) == x,
    decreases recs.len(),
{
    if x > 0 {
        lemma_group_index_of_found(recs.drop_first(), id, x - 1);
    }
}

proof fn lemma_group_index_of_none(recs: Seq<GroupV>, id: Seq<char>)
    requires
        forall|j: int| 0 <= j < recs.len() ==> recs[j].id != id,
    ensures
        group_index_of(recs, id) == -1,
    decreases recs.len(),
{
    if recs.len() > 0 {
        lemma_group_index_of_none(recs.drop_first(), id);
    }
}

/// An equal copy of an optional string.
fn opt_clone(o: &Option<String>) -> (r: Option<String>)
    ensures
        opt_string_view(r) == opt_string_view(*o),
{
    match o {
        Some(s) => Some(s.clone()),
        None => None,
    }
}

/// Group the join rows by bookmark identifier, in order of first
/// appearance, merging each row into its bookmark's record.
fn aggregate_rows(rows: &Vec<JoinRow>) -> (out: Vec<GroupRec>)
    ensures
        out.deep_view() == aggregate_spec(rows.deep_view()),
{
    let ghost rv = rows.deep_view();
    let mut out: Vec<GroupRec> = Vec::new();
    let mut r: usize = 0;
    proof {
        assert(rv.take(0) =~= Seq::<JoinRowV>::empty());
    }
    while r < rows.len()
        invariant
            r <= rows.len(),
            rv == rows.deep_view(),
            rv.len() == rows.len(),
            out.deep_view() == aggregate_spec(rv.take(r as int)),
        decreases rows.len() - r,
    {
        let ghost prev = out.deep_view();
        let n = out.len();
        let mut idx: usize = n;
        let mut i: usize = 0;
        while i < n
            invariant
                n == out.len(),
                i <= n,
                r < rows.len(),
                rv == rows.deep_view(),
                rv.len() == rows.len(),
                prev == out.deep_view(),
                idx == n || (idx < i && prev[idx as int].id == rv[r as int].id && forall|j: int|
                    0 <= j < idx ==> prev[j].id != rv[r as int].id),
                idx == n ==> forall|j: int| 0 <= j < i ==> prev[j].id != rv[r as int].id,
            decreases n - i,
        {
            if idx == n {
                if out[i].id == rows[r].id {
                    idx = i;
                }
            }
            i = i + 1;
        }
        proof {
            assert(rv.take(r as int + 1).drop_last() =~= rv.take(r as int));
            assert(rv.take(r as int + 1).last() == rv[r as int]);
        }
        if idx < n {
            proof {
                lemma_group_index_of_found(prev, rv[r as int].id, idx as int);
            }
            let ghost outraw = out@;
            let mut g = out.remove(idx);
            match &rows[r].tag {
                Some(t) => {
                    g.bm.tag.push(t.clone());
                },
                None => {},
            }
            if g.bm.name.is_none() {
                g.bm.name = opt_clone(&rows[r].name);
            }
            if g.bm.desc.is_none() {
                g.bm.desc = opt_clone(&rows[r].desc);
            }
            if g.bm.category.is_none() {
                g.bm.category = opt_clone(&rows[r].category);
            }
            out.insert(idx, g);
            proof {
                assert(out@ =~= outraw.update(idx as int, g));
                assert(g@.bm.tag =~= merge_into(prev[idx as int], rv[r as int]).bm.tag);
                assert(g@ == merge_into(prev[idx as int], rv[r as int]));
                assert(out.deep_view() =~= prev.update(
                    idx as int,
                    merge_into(prev[idx as int], rv[r as int]),
                ));
            }
        } else {
            proof {
                lemma_group_index_of_none(prev, rv[r as int].id);
            }
            let row = &rows[r];
            let tagvec: Vec<String> = match &row.tag {
                Some(t) => {
                    let mut v: Vec<String> = Vec::new();
                    v.push(t.clone());
                    v
                },
                None => Vec::new(),
            };
            let fresh = GroupRec {
                id: row.id.clone(),
                bm: Bookmark {
                    url: row.url.clone(),
                    name: opt_clone(&row.name),
                    tag: tagvec,
                    desc: opt_clone(&row.desc),
                    category: opt_clone(&row.category),
                },
            };
            proof {
                assert(fresh@.bm.tag =~= fresh_group(rv[r as int]).bm.tag);
                assert(fresh@ == fresh_group(rv[r as int]));
            }
            out.push(fresh);
            proof {
                assert(out.deep_view() =~= prev.push(fresh_group(rv[r as int])));
            }
        }
        r = r + 1;
    }
    proof {
        assert(rv.take(rv.len() as int) =~= rv);
    }
    out
}

/// Whether `v` holds a string equal to `s`.
fn vec_has_string(v: &Vec<String>, s: &String) -> (b: bool)
    ensures
        b == v.deep_view().contains(s@),
{
    let mut i: usize = 0;
    let mut found = false;
    while i < v.len()
        invariant
            i <= v.len(),
            found == exists|j: int| 0 <= j < i && v.deep_view()[j] == s@,
        decreases v.len() - i,
    {
        proof {
            assert(v.deep_view()[i as int] == v@[i as int]@);
        }
        if v[i] == *s {
            found = true;
        }
        i = i + 1;
    }
    found
}

/// Whether a record's aggregated tags match the requested tag set in the
/// requested mode.
fn bookmark_matches(bm: &Bookmark, wanted: &Vec<String>, mode: &TagMode) -> (b: bool)
    ensures
        b == tag_match(bm@, wanted.deep_view(), *mode),
{
    match mode {
        TagMode::All => {
            let mut i: usize = 0;
            let mut ok = true;
            while i < wanted.len()
                invariant
                    i <= wanted.len(),
                    ok == forall|j: int|
                        0 <= j < i ==> bm@.tag.contains(wanted.deep_view()[j]),
                decreases wanted.len() - i,
            {
                proof {
                    assert(wanted.deep_view()[i as int] == wanted@[i as int]@);
                }
                if !vec_has_string(&bm.tag, &wanted[i]) {
                    ok = false;
                }
                i = i + 1;
            }
            ok
        },
        TagMode::Any => {
            let mut i: usize = 0;
            let mut ok = false;
            while i < wanted.len()
                invariant
                    i <= wanted.len(),
                    ok == exists|j: int| 0 <= j < i && bm@.tag.contains(wanted.deep_view()[j]),
                decreases wanted.len() - i,
            {
                proof {
                    assert(wanted.deep_view()[i as int] == wanted@[i as int]@);
                }
                if vec_has_string(&bm.tag, &wanted[i]) {
                    ok = true;
                }
                i = i + 1;
            }
            ok
        },
    }
}

/// An equal copy of a vector of strings.
fn clone_string_vec(v: &Vec<String>) -> (r: Vec<String>)
    ensures
        r.deep_view() == v.deep_view(),
{
    let mut out: Vec<String> = Vec::new();
    let mut i: usize = 0;
    proof {
        assert(out.deep_view() =~= v.deep_view().take(0));
    }
    while i < v.len()
        invariant
            i <= v.len(),
            out.len() == i,
            out.deep_view() == v.deep_view().take(i as int),
        decreases v.len() - i,
    {
        out.push(v[i].clone());
        proof {
            assert(out.deep_view() =~= v.deep_view().take(i as int + 1));
        }
        i = i + 1;
    }
    proof {
        assert(v.deep_view().take(v.len() as int) =~= v.deep_view());
    }
    out
}

/// Project one assembled record to the requested column subset.
fn project_record(bm: &Bookmark, cols: &ListColumn) -> (r: Bookmark)
    ensures
        r@ == project_bm(bm@, *cols),
{
    let empty_tags: Vec<String> = Vec::new();
    proof {
        assert(empty_tags.deep_view() =~= Seq::<Seq<char>>::empty());
    }
    match cols {
        ListColumn::All => Bookmark {
            url: bm.url.clone(),
            name: opt_clone(&bm.name),
            tag: clone_string_vec(&bm.tag),
            desc: opt_clone(&bm.desc),
            category: opt_clone(&bm.category),
        },
        ListColumn::Url => Bookmark {
            url: bm.url.clone(),
            name: None,
            tag: empty_tags,
            desc: None,
            category: None,
        },
        ListColumn::Desc => Bookmark {
            url: bm.url.clone(),
            name: None,
            tag: empty_tags,
            desc: opt_clone(&bm.desc),
            category: None,
        },
        ListColumn::Tag => Bookmark {
            url: bm.url.clone(),
            name: None,
            tag: clone_string_vec(&bm.tag),
            desc: None,
            category: None,
        },
    }
}

/// How many rows of `tags` carry `name`.
pub open spec fn count_tag_name(tags: Seq<TagRowV>, name: Seq<char>) -> int
    decreases tags.len(),
{
    if tags.len() == 0 {
        0
    } else {
        (if tags[0].name == name {
            1int
        } else {
            0int
        }) + count_tag_name(tags.drop_first(), name)
    }
}

/// How many entries of `names` equal `b`.
pub open spec fn count_name(names: Seq<Seq<char>>, b: Seq<char>) -> int
    decreases names.len(),
{
    if names.len() == 0 {
        0
    } else {
        (if names[0] == b {
            1int
        } else {
            0int
        }) + count_name(names.drop_first(), b)
    }
}

proof fn lemma_count_tag_nonneg(tags: Seq<TagRowV>, name: Seq<char>)
    ensures
        count_tag_name(tags, name) >= 0,
    decreases tags.len(),
{
    if tags.len() > 0 {
        lemma_count_tag_nonneg(tags.drop_first(), name);
    }
}

proof fn lemma_count_name_nonneg(names: Seq<Seq<char>>, b: Seq<char>)
    ensures
        count_name(names, b) >= 0,
    decreases names.len(),
{
    if names.len() > 0 {
        lemma_count_name_nonneg(names.drop_first(), b);
    }
}

proof fn lemma_count_tag_concat(a: Seq<TagRowV>, b: Seq<TagRowV>, name: Seq<char>)
    ensures
        count_tag_name(a + b, name) == count_tag_name(a, name) + count_tag_name(b, name),
    decreases a.len(),
{
    if a.len() == 0 {
        assert(a + b =~= b);
    } else {
        assert((a + b).drop_first() =~= a.drop_first() + b);
        lemma_count_tag_concat(a.drop_first(), b, name);
        assert((a + b)[0] == a[0]);
    }
}

proof fn lemma_count_tag_zero(tags: Seq<TagRowV>, name: Seq<char>)
    requires
        forall|i: int| 0 <= i < tags.len() ==> tags[i].name != name,
    ensures
        count_tag_name(tags, name) == 0,
    decreases tags.len(),
{
    if tags.len() > 0 {
        lemma_count_tag_zero(tags.drop_first(), name);
    }
}

proof fn lemma_count_tag_pos(tags: Seq<TagRowV>, name: Seq<char>, i: int)
    requires
        0 <= i < tags.len(),
        tags[i].name == name,
    ensures
        count_tag_name(tags, name) >= 1,
    decreases tags.len(),
{
    if i > 0 {
        lemma_count_tag_pos(tags.drop_first(), name, i - 1);
    } else {
        lemma_count_tag_nonneg(tags.drop_first(), name);
    }
}

proof fn lemma_count_tag_two(tags: Seq<TagRowV>, name: Seq<char>, i: int, j: int)
    requires
        0 <= i < j < tags.len(),
        tags[i].name == name,
        tags[j].name == name,
    ensures
        count_tag_name(tags, name) >= 2,
    decreases tags.len(),
{
    if i == 0 {
        lemma_count_tag_pos(tags.drop_first(), name, j - 1);
    } else {
        lemma_count_tag_two(tags.drop_first(), name, i - 1, j - 1);
    }
}

proof fn lemma_count_name_zero(names: Seq<Seq<char>>, b: Seq<char>)
    requires
        forall|k: int| 0 <= k < names.len() ==> names[k] != b,
    ensures
        count_name(names, b) == 0,
    decreases names.len(),
{
    if names.len() > 0 {
        lemma_count_name_zero(names.drop_first(), b);
    }
}

proof fn lemma_count_name_pos(names: Seq<Seq<char>>, b: Seq<char>, k: int)
    requires
        0 <= k < names.len(),
        names[k] == b,
    ensures
        count_name(names, b) >= 1,
    decreases names.len(),
{
    if k > 0 {
        lemma_count_name_pos(names.drop_first(), b, k - 1);
    } else {
        lemma_count_name_nonneg(names.drop_first(), b);
    }
}

proof fn lemma_count_name_at_most_one(names: Seq<Seq<char>>, b: Seq<char>)
    requires
        forall|j: int, k: int| 0 <= j < k < names.len() ==> !(names[j] == b && names[k] == b),
    ensures
        count_name(names, b) <= 1,
    decreases names.len(),
{
    if names.len() > 0 {
        if names[0] == b {
            assert forall|k: int| 0 <= k < names.drop_first().len() implies names.drop_first()[k]
                != b by {
                assert(names.drop_first()[k] == names[k + 1]);
            }
            lemma_count_name_zero(names.drop_first(), b);
        } else {
            lemma_count_name_at_most_one(names.drop_first(), b);
        }
    }
}

proof fn lemma_count_created(
    pre: Seq<TagRowV>,
    names: Seq<Seq<char>>,
    ids: Seq<Seq<char>>,
    ts: Seq<char>,
    b: Seq<char>,
)
    requires
        names.len() == ids.len(),
    ensures
        count_tag_name(created_tag_rows(pre, names, ids, ts), b) == (if tag_name_present(
            pre,
            b,
        ) {
            0int
        } else {
            count_name(names, b)
        }),
    decreases names.len(),
{
    if names.len() > 0 {
        lemma_count_created(pre, names.drop_first(), ids.drop_first(), ts, b);
        let rest = created_tag_rows(pre, names.drop_first(), ids.drop_first(), ts);
        if !tag_name_present(pre, names[0]) {
            let head = seq![TagRowV { id: ids[0], name: names[0], added_at: ts }];
            lemma_count_tag_concat(head, rest, b);
            assert(head.drop_first() =~= Seq::<TagRowV>::empty());
            assert(count_tag_name(Seq::<TagRowV>::empty(), b) == 0);
            assert(count_tag_name(head, b) == (if names[0] == b {
                1int
            } else {
                0int
            }));
        }
    }
}

/// Law: two successful inserts that both request tag name `b`, against a
/// store holding no tag of that name, leave exactly one tag row named
/// `b`, and it is referenced by two association rows of two distinct
/// bookmarks.
pub proof fn lemma_tag_created_once(
    s0: StoreState,
    s1: StoreState,
    s2: StoreState,
    url1: Seq<char>,
    name1: Option<Seq<char>>,
    tags1: Seq<Seq<char>>,
    desc1: Option<Seq<char>>,
    catg1: Option<Seq<char>>,
    url2: Seq<char>,
    name2: Option<Seq<char>>,
    tags2: Seq<Seq<char>>,
    desc2: Option<Seq<char>>,
    catg2: Option<Seq<char>>,
    b: Seq<char>,
)
    requires
        insert_post(s0, s1, url1, name1, tags1, desc1, catg1),
        insert_post(s1, s2, url2, name2, tags2, desc2, catg2),
        tags1.contains(b),
        tags2.contains(b),
        forall|i: int| 0 <= i < s0.tags.len() ==> s0.tags[i].name != b,
    ensures
        count_tag_name(s2.tags, b) == 1,
        exists|x: int, y: int|
            0 <= x < y < s2.links.len() && s2.links[x].tag_id == s2.links[y].tag_id && tag_has(
                s2.tags,
                b,
                s2.links[x].tag_id,
            ) && s2.links[x].bmark_id != s2.links[y].bmark_id,
{
    let (bid1, ts1, ids1): (Seq<char>, Seq<char>, Seq<Seq<char>>) = choose|
        bid: Seq<char>,
        ts: Seq<char>,
        ids: Seq<Seq<char>>,
    | insert_post_with(s0, s1, url1, name1, tags1, desc1, catg1, bid, ts, ids);
    let (bid2, ts2, ids2): (Seq<char>, Seq<char>, Seq<Seq<char>>) = choose|
        bid: Seq<char>,
        ts: Seq<char>,
        ids: Seq<Seq<char>>,
    | insert_post_with(s1, s2, url2, name2, tags2, desc2, catg2, bid, ts, ids);
    let k1 = choose|k: int| 0 <= k < tags1.len() && tags1[k] == b;
    let k2 = choose|k: int| 0 <= k < tags2.len() && tags2[k] == b;
    let created1 = created_tag_rows(s0.tags, tags1, ids1, ts1);
    let created2 = created_tag_rows(s1.tags, tags2, ids2, ts2);

    assert(!tag_name_present(s0.tags, b));
    // the first insert creates exactly one row named `b`
    lemma_count_tag_zero(s0.tags, b);
    lemma_count_created(s0.tags, tags1, ids1, ts1, b);
    lemma_count_name_pos(tags1, b, k1);
    assert forall|j: int, k: int|
        0 <= j < k < tags1.len() implies !(tags1[j] == b && tags1[k] == b) by {
        if tags1[j] == b && tags1[k] == b {
            assert(!tag_name_present(s0.tags, tags1[k]));
        }
    }
    lemma_count_name_at_most_one(tags1, b);
    lemma_count_tag_concat(s0.tags, created1, b);
    assert(count_tag_name(s1.tags, b) == 1);

    // the second insert sees the row and creates none
    lemma_created_contains(s0.tags, tags1, ids1, ts1, k1);
    let c1 = choose|x: int|
        0 <= x < created1.len() && created1[x] == (TagRowV {
            id: ids1[k1],
            name: tags1[k1],
            added_at: ts1,
        });
    assert(s1.tags[s0.tags.len() + c1].name == b);
    assert(tag_name_present(s1.tags, b));
    lemma_count_created(s1.tags, tags2, ids2, ts2, b);
    lemma_count_tag_concat(s1.tags, created2, b);
    assert(count_tag_name(s2.tags, b) == 1);

    // the two association rows: one per insert, sharing the tag identifier
    assert(tag_has(s1.tags, b, ids1[k1])) by {
        assert(s1.tags[s0.tags.len() + c1] == (TagRowV {
            id: ids1[k1],
            name: tags1[k1],
            added_at: ts1,
        }));
    }
    assert(tag_has(s1.tags, b, ids2[k2]));
    assert(ids1[k1] == ids2[k2]) by {
        let ia = choose|i: int|
            0 <= i < s1.tags.len() && s1.tags[i].name == b && s1.tags[i].id == ids1[k1];
        let ib = choose|i: int|
            0 <= i < s1.tags.len() && s1.tags[i].name == b && s1.tags[i].id == ids2[k2];
        if ia < ib {
            lemma_count_tag_two(s1.tags, b, ia, ib);
        } else if ib < ia {
            lemma_count_tag_two(s1.tags, b, ib, ia);
        }
    }

    let x = s0.links.len() + k1;
    let y = s1.links.len() + k2;
    assert(s1.links[x] == (LinkRowV { bmark_id: bid1, tag_id: ids1[k1], created_at: ts1 }));
    assert(s2.links[x] == s1.links[x]);
    assert(s2.links[y] == (LinkRowV { bmark_id: bid2, tag_id: ids2[k2], created_at: ts2 }));
    assert(bid1 != bid2) by {
        assert(s1.bmarks[s0.bmarks.len() as int].id == bid1);
    }
    assert(tag_has(s2.tags, b, ids1[k1])) by {
        let i0 = choose|i: int|
            0 <= i < s1.tags.len() && s1.tags[i].name == b && s1.tags[i].id == ids1[k1];
        assert(s2.tags[i0] == s1.tags[i0]);
    }
    assert(0 <= x < y < s2.links.len() && s2.links[x].tag_id == s2.links[y].tag_id && tag_has(
        s2.tags,
        b,
        s2.links[x].tag_id,
    ) && s2.links[x].bmark_id != s2.links[y].bmark_id);
}

/// Whether the records of `recs` carry pairwise distinct bookmark
/// identifiers.
pub open spec fn distinct_ids(recs: Seq<GroupV>) -> bool {
    forall|i: int, j: int| 0 <= i < j < recs.len() ==> recs[i].id != recs[j].id
}

proof fn lemma_group_index_of_bounds(recs: Seq<GroupV>, id: Seq<char>)
    ensures
        -1 <= group_index_of(recs, id) < recs.len(),
    decreases recs.len(),
{
    if recs.len() > 0 && recs[0].id != id {
        lemma_group_index_of_bounds(recs.drop_first(), id);
    }
}

proof fn lemma_group_index_of_absent(recs: Seq<GroupV>, id: Seq<char>)
    requires
        group_index_of(recs, id) == -1,
    ensures
        forall|j: int| 0 <= j < recs.len() ==> recs[j].id != id,
    decreases recs.len(),
{
    if recs.len() > 0 {
        lemma_group_index_of_bounds(recs.drop_first(), id);
        lemma_group_index_of_absent(recs.drop_first(), id);
        assert forall|j: int| 0 <= j < recs.len() implies recs[j].id != id by {
            if j > 0 {
                assert(recs.drop_first()[j - 1] == recs[j]);
            }
        }
    }
}

proof fn lemma_aggregate_distinct_ids(rows: Seq<JoinRowV>)
    ensures
        distinct_ids(aggregate_spec(rows)),
    decreases rows.len(),
{
    if rows.len() > 0 {
        lemma_aggregate_distinct_ids(rows.drop_last());
        let prev = aggregate_spec(rows.drop_last());
        let agg = aggregate_spec(rows);
        let k = group_index_of(prev, rows.last().id);
        lemma_group_index_of_bounds(prev, rows.last().id);
        if k >= 0 {
            assert(agg == prev.update(k, merge_into(prev[k], rows.last())));
            assert(merge_into(prev[k], rows.last()).id == prev[k].id);
            assert forall|i: int, j: int|
                0 <= i < j < agg.len() implies agg[i].id != agg[j].id by {
                assert(agg[i].id == prev[i].id);
                assert(agg[j].id == prev[j].id);
            }
        } else {
            lemma_group_index_of_absent(prev, rows.last().id);
            assert(agg == prev.push(fresh_group(rows.last())));
            assert forall|i: int, j: int|
                0 <= i < j < agg.len() implies agg[i].id != agg[j].id by {
                if j < prev.len() {
                    assert(agg[i].id == prev[i].id);
                    assert(agg[j].id == prev[j].id);
                } else {
                    assert(agg[i] == prev[i]);
                    assert(agg[j] == fresh_group(rows.last()));
                }
            }
        }
    }
}

proof fn lemma_filter_records_complete(
    recs: Seq<GroupV>,
    output: OutputType,
    mode: TagMode,
    g: GroupV,
)
    requires
        recs.contains(g),
        keep_record(g.bm, output, mode),
    ensures
        filter_records(recs, output, mode).contains(g),
    decreases recs.len(),
{
    let f = filter_records(recs, output, mode);
    let fd = filter_records(recs.drop_last(), output, mode);
    let w = choose|i: int| 0 <= i < recs.len() && recs[i] == g;
    if w == recs.len() - 1 {
        assert(f[fd.len() as int] == g);
    } else {
        assert(recs.drop_last().contains(g)) by {
            assert(recs.drop_last()[w] == g);
        }
        lemma_filter_records_complete(recs.drop_last(), output, mode, g);
        let x = choose|x: int| 0 <= x < fd.len() && fd[x] == g;
        assert(f[x] == g);
    }
}

proof fn lemma_filter_records_distinct(recs: Seq<GroupV>, output: OutputType, mode: TagMode)
    requires
        distinct_ids(recs),
    ensures
        distinct_ids(filter_records(recs, output, mode)),
    decreases recs.len(),
{
    if recs.len() > 0 {
        let f = filter_records(recs, output, mode);
        let fd = filter_records(recs.drop_last(), output, mode);
        assert(distinct_ids(recs.drop_last())) by {
            assert forall|i: int, j: int|
                0 <= i < j < recs.drop_last().len() implies recs.drop_last()[i].id
                != recs.drop_last()[j].id by {
                assert(recs.drop_last()[i] == recs[i]);
                assert(recs.drop_last()[j] == recs[j]);
            }
        }
        lemma_filter_records_distinct(recs.drop_last(), output, mode);
        lemma_filter_records_sound(recs.drop_last(), output, mode);
        if keep_record(recs.last().bm, output, mode) {
            assert forall|i: int, j: int|
                0 <= i < j < f.len() implies f[i].id != f[j].id by {
                if j < fd.len() {
                    assert(f[i] == fd[i]);
                    assert(f[j] == fd[j]);
                } else {
                    assert(f[i] == fd[i]);
                    assert(f[j] == recs.last());
                    assert(recs.drop_last().contains(fd[i]));
                    let w = choose|w: int|
                        0 <= w < recs.drop_last().len() && recs.drop_last()[w] == fd[i];
                    assert(recs[w] == fd[i]);
                    assert(recs[recs.len() - 1] == recs.last());
                }
            }
        }
    }
}

proof fn lemma_filter_records_sound(recs: Seq<GroupV>, output: OutputType, mode: TagMode)
    ensures
        forall|x: int|
            0 <= x < filter_records(recs, output, mode).len() ==> keep_record(
                (#[trigger] filter_records(recs, output, mode)[x]).bm,
                output,
                mode,
            ) && recs.contains(filter_records(recs, output, mode)[x]),
    decreases recs.len(),
{
    if recs.len() > 0 {
        lemma_filter_records_sound(recs.drop_last(), output, mode);
        let f = filter_records(recs, output, mode);
        let fd = filter_records(recs.drop_last(), output, mode);
        assert forall|x: int|
            0 <= x < f.len() implies keep_record(
            (#[trigger] f[x]).bm,
            output,
            mode,
        ) && recs.contains(f[x]) by {
            if x < fd.len() {
                assert(keep_record(fd[x].bm, output, mode));
                let w = choose|i: int| 0 <= i < recs.drop_last().len() && recs.drop_last()[i] == fd[x];
                assert(recs[w] == fd[x]);
            } else {
                assert(f[x] == recs.last());
                assert(recs[recs.len() - 1] == recs.last());
            }
        }
    }
}

/// Law: a tag-filtered listing returns exactly the bookmarks matching the
/// requested tag set, each exactly once. Every returned record is the
/// projection of a kept aggregated record that carries every requested
/// tag (mode `All`) or at least one of them (mode `Any`); every
/// aggregated record that matches is kept; and the kept records carry
/// pairwise distinct bookmark identifiers, one output entry each.
pub proof fn lemma_list_tag_filter(
    rows: Seq<JoinRowV>,
    ws: Vec<String>,
    cols: ListColumn,
    mode: TagMode,
)
    ensures
        list_spec(rows, OutputType::Tag(ws), cols, mode).len() == filter_records(
            aggregate_spec(rows),
            OutputType::Tag(ws),
            mode,
        ).len(),
        forall|x: int|
            #![trigger list_spec(rows, OutputType::Tag(ws), cols, mode)[x]]
            0 <= x < list_spec(rows, OutputType::Tag(ws), cols, mode).len() ==> {
                let g = filter_records(aggregate_spec(rows), OutputType::Tag(ws), mode)[x];
                &&& aggregate_spec(rows).contains(g)
                &&& tag_match(g.bm, ws.deep_view(), mode)
                &&& list_spec(rows, OutputType::Tag(ws), cols, mode)[x] == project_bm(g.bm, cols)
            },
        forall|g: GroupV|
            #[trigger] aggregate_spec(rows).contains(g) && tag_match(g.bm, ws.deep_view(), mode)
                ==> filter_records(aggregate_spec(rows), OutputType::Tag(ws), mode).contains(g),
        distinct_ids(filter_records(aggregate_spec(rows), OutputType::Tag(ws), mode)),
{
    let agg = aggregate_spec(rows);
    let f = filter_records(agg, OutputType::Tag(ws), mode);
    lemma_filter_records_sound(agg, OutputType::Tag(ws), mode);
    lemma_aggregate_distinct_ids(rows);
    lemma_filter_records_distinct(agg, OutputType::Tag(ws), mode);
    assert forall|x: int|
        #![trigger list_spec(rows, OutputType::Tag(ws), cols, mode)[x]]
        0 <= x < list_spec(rows, OutputType::Tag(ws), cols, mode).len() implies {
        let g = filter_records(aggregate_spec(rows), OutputType::Tag(ws), mode)[x];
        &&& aggregate_spec(rows).contains(g)
        &&& tag_match(g.bm, ws.deep_view(), mode)
        &&& list_spec(rows, OutputType::Tag(ws), cols, mode)[x] == project_bm(g.bm, cols)
    } by {
        assert(keep_record(f[x].bm, OutputType::Tag(ws), mode));
        assert(agg.contains(f[x]));
    }
    assert forall|g: GroupV|
        #[trigger] aggregate_spec(rows).contains(g) && tag_match(
        g.bm,
        ws.deep_view(),
        mode,
    ) implies filter_records(aggregate_spec(rows), OutputType::Tag(ws), mode).contains(g) by {
        lemma_filter_records_complete(agg, OutputType::Tag(ws), mode, g);
    }
}

proof fn lemma_join_no_links(bs: Seq<BmarkRowV>, tags: Seq<TagRowV>, links: Seq<LinkRowV>)
    requires
        links.len() == 0,
    ensures
        join_bmarks(bs, tags, links).len() == bs.len(),
        forall|i: int|
            0 <= i < bs.len() ==> #[trigger] join_bmarks(bs, tags, links)[i] == join_row_of(
                bs[i],
                None,
            ),
    decreases bs.len(),
{
    broadcast use vstd::seq_lib::group_filter_ensures;

    if bs.len() > 0 {
        assert(links_of(links, bs[0].id).len() == 0);
        lemma_join_no_links(bs.drop_first(), tags, links);
    }
}

proof fn lemma_aggregate_distinct_none(rows: Seq<JoinRowV>)
    requires
        forall|x: int| 0 <= x < rows.len() ==> (#[trigger] rows[x].tag) is None,
        forall|x: int, y: int| 0 <= x < y < rows.len() ==> rows[x].id != rows[y].id,
    ensures
        aggregate_spec(rows).len() == rows.len(),
        forall|x: int|
            0 <= x < rows.len() ==> (#[trigger] aggregate_spec(rows)[x]).id == rows[x].id
                && aggregate_spec(rows)[x].bm.tag == Seq::<Seq<char>>::empty(),
    decreases rows.len(),
{
    if rows.len() > 0 {
        lemma_aggregate_distinct_none(rows.drop_last());
        let prev = aggregate_spec(rows.drop_last());
        assert forall|j: int| 0 <= j < prev.len() implies prev[j].id != rows.last().id by {
            assert(prev[j].id == rows.drop_last()[j].id);
            assert(rows.drop_last()[j].id == rows[j].id);
        }
        lemma_group_index_of_none(prev, rows.last().id);
        assert(fresh_group(rows.last()).bm.tag =~= Seq::<Seq<char>>::empty());
    }
}

proof fn lemma_filter_all_keeps(recs: Seq<GroupV>, mode: TagMode)
    ensures
        filter_records(recs, OutputType::All, mode) == recs,
    decreases recs.len(),
{
    if recs.len() > 0 {
        lemma_filter_all_keeps(recs.drop_last(), mode);
        assert(filter_records(recs, OutputType::All, mode) =~= recs);
    } else {
        assert(filter_records(recs, OutputType::All, mode) =~= recs);
    }
}

/// Law: listing a store whose association table is empty returns exactly
/// one record per bookmark row — none dropped, none repeated — each with
/// an empty tag sequence, whatever column projection is requested. The
/// bookmark identifiers are assumed pairwise distinct, as the table's
/// primary key guarantees.
pub proof fn lemma_list_no_links(s: StoreState, rows: Seq<JoinRowV>, cols: ListColumn)
    requires
        s.links.len() == 0,
        forall|i: int, j: int| 0 <= i < j < s.bmarks.len() ==> s.bmarks[i].id != s.bmarks[j].id,
        rows.to_multiset() == join_of(s).to_multiset(),
    ensures
        list_spec(rows, OutputType::All, cols, TagMode::Any).len() == s.bmarks.len(),
        forall|x: int|
            0 <= x < s.bmarks.len() ==> (#[trigger] list_spec(
                rows,
                OutputType::All,
                cols,
                TagMode::Any,
            )[x]).tag == Seq::<Seq<char>>::empty(),
{
    broadcast use vstd::seq_lib::group_to_multiset_ensures;

    lemma_join_no_links(s.bmarks, s.tags, s.links);
    let j = join_of(s);
    assert(rows.len() == s.bmarks.len()) by {
        assert(rows.to_multiset().len() == rows.len());
        assert(j.to_multiset().len() == j.len());
    }
    // every row of the result is a join row, so its tag is absent
    assert forall|x: int| 0 <= x < rows.len() implies (#[trigger] rows[x].tag) is None by {
        assert(rows.to_multiset().contains(rows[x]));
        assert(j.contains(rows[x]));
        let w = choose|i: int| 0 <= i < j.len() && j[i] == rows[x];
        assert(j[w] == join_row_of(s.bmarks[w], None));
    }
    // join rows carry pairwise distinct identifiers, so the result rows
    // do too
    assert(j.no_duplicates()) by {
        assert forall|a: int, b2: int|
            0 <= a < j.len() && 0 <= b2 < j.len() && a != b2 implies j[a] != j[b2] by {
            assert(j[a] == join_row_of(s.bmarks[a], None));
            assert(j[b2] == join_row_of(s.bmarks[b2], None));
        }
    }
    j.lemma_multiset_has_no_duplicates();
    rows.lemma_multiset_has_no_duplicates_conv();
    assert forall|x: int, y: int| 0 <= x < y < rows.len() implies rows[x].id != rows[y].id by {
        if rows[x].id == rows[y].id {
            assert(rows[x] != rows[y]);
            assert(rows.to_multiset().contains(rows[x]));
            assert(rows.to_multiset().contains(rows[y]));
            assert(j.contains(rows[x]));
            assert(j.contains(rows[y]));
            let wx = choose|i: int| 0 <= i < j.len() && j[i] == rows[x];
            let wy = choose|i: int| 0 <= i < j.len() && j[i] == rows[y];
            assert(j[wx] == join_row_of(s.bmarks[wx], None));
            assert(j[wy] == join_row_of(s.bmarks[wy], None));
            assert(s.bmarks[wx].id == s.bmarks[wy].id);
            assert(wx != wy);
        }
    }
    lemma_aggregate_distinct_none(rows);
    lemma_filter_all_keeps(aggregate_spec(rows), TagMode::Any);
}

/// Whether the store at `path` is already set up: false if the file does
/// not exist or any of the three tables is absent, true only when all
/// three are present. The file is opened read-only and never created
/// here. What the file at `path` holds is not a value this model can
/// name, so the contract states what holds of every outcome: a true
/// answer came from a store whose schema is complete; the exact relation
/// between the answer and the tables stands on [`BMark::is_ready`].
pub fn is_setup_done(path: &str) -> (r: Result<bool, BMarkError>)
    ensures
        match r {
            Ok(b) => b ==> exists|c: rusqlite::Connection|
                schema_ok(state_of(c)) && !in_txn_of(c),
            Err(e) => !(e is Validation),
        },
{
    let conn = match db::open_file_readonly(path) {
        Ok(c) => c,
        Err(_) => {
            return Ok(false);
        },
    };
    let b = BMark { conn };
    let r = b.is_ready();
    proof {
        if (r matches Ok(true)) {
            assert(schema_ok(state_of(b.conn)) && !in_txn_of(b.conn));
        }
    }
    r
}

} // verus!
