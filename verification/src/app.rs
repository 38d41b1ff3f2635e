//! Launchable applications and catalogues of them keyed by id.

use vstd::prelude::*;

verus! {

/// An application that the launcher can show and start.
#[derive(Clone)]
pub struct DesktopApp {
    pub id: String,
    pub name: String,
    pub comment: String,
    pub command: String,
    pub keywords: String,
    pub app_type: String,
    pub categories: String,
    pub no_display: bool,
    pub only_show_in: String,
    pub icon: String,
}

/// The contents of a [`DesktopApp`], as text.
pub struct AppView {
    pub id: Seq<char>,
    pub name: Seq<char>,
    pub comment: Seq<char>,
    pub command: Seq<char>,
    pub keywords: Seq<char>,
    pub app_type: Seq<char>,
    pub categories: Seq<char>,
    pub no_display: bool,
    pub only_show_in: Seq<char>,
    pub icon: Seq<char>,
}

impl View for DesktopApp {
    type V = AppView;

    open spec fn view(&self) -> AppView {
        AppView {
            id: self.id@,
            name: self.name@,
            comment: self.comment@,
            command: self.command@,
            keywords: self.keywords@,
            app_type: self.app_type@,
            categories: self.categories@,
            no_display: self.no_display,
            only_show_in: self.only_show_in@,
            icon: self.icon@,
        }
    }
}

impl DesktopApp {
    /// An application made of the given fields.
    pub fn new(
        id: String,
        name: String,
        comment: String,
        command: String,
        keywords: String,
        app_type: String,
        categories: String,
        icon: String,
        no_display: bool,
        only_show_in: String,
    ) -> (r: Self)
        ensures
            r.id == id,
            r.name == name,
            r.comment == comment,
            r.command == command,
            r.keywords == keywords,
            r.app_type == app_type,
            r.categories == categories,
            r.icon == icon,
            r.no_display == no_display,
            r.only_show_in == only_show_in,
    {
        Self {
            id,
            name,
            comment,
            command,
            keywords,
            app_type,
            categories,
            icon,
            no_display,
            only_show_in,
        }
    }
}

/// The contents of the applications of `apps`, in order.
pub open spec fn views(apps: Seq<DesktopApp>) -> Seq<AppView> {
    apps.map_values(|a: DesktopApp| a@)
}

/// The application that a catalogue filled with `apps`, one after the other,
/// holds under `id`: the last one with that id.
pub open spec fn latest(apps: Seq<AppView>, id: Seq<char>) -> Option<AppView>
    decreases apps.len(),
{
    if apps.len() == 0 {
        None
    } else if apps.last().id == id {
        Some(apps.last())
    } else {
        latest(apps.drop_last(), id)
    }
}

/// The catalogue, from id to application, that inserting `apps` one after
/// the other into an empty one gives.
pub open spec fn catalog(apps: Seq<AppView>) -> Map<Seq<char>, AppView> {
    Map::new(|id: Seq<char>| latest(apps, id) is Some, |id: Seq<char>| latest(apps, id).unwrap())
}

/// No two applications share an id.
pub open spec fn unique_ids(apps: Seq<AppView>) -> bool {
    forall|i: int, j: int| 0 <= i < j < apps.len() ==> apps[i].id != apps[j].id
}

/// What `latest` finds: nothing when no application has the id, and the one
/// that has it when ids are unique; whatever it finds is one of `apps`.
pub proof fn lemma_latest(apps: Seq<AppView>, id: Seq<char>)
    ensures
        latest(apps, id) is None <==> forall|i: int| 0 <= i < apps.len() ==> apps[i].id != id,
        unique_ids(apps) ==> forall|i: int|
            0 <= i < apps.len() && apps[i].id == id ==> latest(apps, id) == Some(apps[i]),
        latest(apps, id) is Some ==> apps.contains(latest(apps, id).unwrap()),
        latest(apps, id) is Some ==> latest(apps, id).unwrap().id == id,
    decreases apps.len(),
{
    if apps.len() > 0 {
        let init = apps.drop_last();
        lemma_latest(init, id);
        if latest(apps, id) is None {
            assert forall|i: int| 0 <= i < apps.len() implies apps[i].id != id by {
                if i < init.len() {
                    assert(init[i] == apps[i]);
                }
            }
        }
        if latest(apps, id) is Some {
            if apps.last().id == id {
                assert(apps[apps.len() - 1] == apps.last());
            } else {
                let k = choose|k: int| 0 <= k < init.len() && init[k] == latest(init, id).unwrap();
                assert(apps[k] == init[k]);
            }
        }
    }
}

/// Law: a catalogue holds each of its applications under the application's
/// own id, and only applications it was filled with.
pub proof fn lemma_catalog_entries(apps: Seq<AppView>)
    ensures
        forall|id: Seq<char>| #[trigger] catalog(apps).contains_key(id) ==> catalog(apps)[id].id
            == id && apps.contains(catalog(apps)[id]),
{
    assert forall|id: Seq<char>| #[trigger] catalog(apps).contains_key(id) implies catalog(
        apps,
    )[id].id == id && apps.contains(catalog(apps)[id]) by {
        lemma_latest(apps, id);
    }
}

/// Inserting an application into a catalogue puts it under its id and
/// leaves every other id as it was.
pub proof fn lemma_catalog_push(apps: Seq<AppView>, app: AppView)
    ensures
        catalog(apps.push(app)) == catalog(apps).insert(app.id, app),
{
    assert(apps.push(app).drop_last() =~= apps);
    assert(catalog(apps.push(app)) =~= catalog(apps).insert(app.id, app));
}

/// Filling a catalogue with `a` and then `b`: an id that `b` holds is
/// answered from `b`, any other from `a`.
pub proof fn lemma_latest_concat(a: Seq<AppView>, b: Seq<AppView>, id: Seq<char>)
    ensures
        latest(a + b, id) == (if latest(b, id) is Some {
            latest(b, id)
        } else {
            latest(a, id)
        }),
    decreases b.len(),
{
    if b.len() == 0 {
        assert(a + b =~= a);
    } else {
        assert((a + b).drop_last() =~= a + b.drop_last());
        assert((a + b).last() == b.last());
        lemma_latest_concat(a, b.drop_last(), id);
    }
}

/// Law: filling one catalogue from several sources in turn gives the union
/// of their catalogues, in which a later source overrides an earlier one.
pub proof fn lemma_catalog_concat(a: Seq<AppView>, b: Seq<AppView>)
    ensures
        catalog(a + b) == catalog(a).union_prefer_right(catalog(b)),
{
    assert forall|id: Seq<char>| #[trigger] latest(a + b, id) == (if latest(b, id) is Some {
        latest(b, id)
    } else {
        latest(a, id)
    }) by {
        lemma_latest_concat(a, b, id);
    }
    assert(catalog(a + b) =~= catalog(a).union_prefer_right(catalog(b)));
}

/// Puts `app` into the catalogue `apps` under its id, replacing the
/// application that had that id (as `HashMap::insert` does).
pub fn insert_app(apps: &mut Vec<DesktopApp>, app: DesktopApp)
    requires
        unique_ids(views(old(apps)@)),
    ensures
        unique_ids(views(final(apps)@)),
        catalog(views(final(apps)@)) == catalog(views(old(apps)@)).insert(app.id@, app@),
{
    let ghost before = views(apps@);
    let n = apps.len();
    let mut i: usize = 0;
    while i < n
        invariant
            i <= n,
            n == apps@.len(),
            views(apps@) == before,
            before == views(old(apps)@),
            unique_ids(before),
            forall|j: int| 0 <= j < i ==> before[j].id != app.id@,
        decreases n - i,
    {
        if apps[i].id == app.id {
            let ghost v = app@;
            let ghost id = v.id;
            assert(before[i as int].id == id);
            apps.set(i, app);
            let ghost after = views(apps@);
            proof {
                assert(after =~= before.update(i as int, v));
                assert forall|j: int, k: int| 0 <= j < k < after.len() implies after[j].id
                    != after[k].id by {
                    if j != i && k != i {
                        assert(after[j] == before[j] && after[k] == before[k]);
                    }
                }
                assert forall|k: Seq<char>| #[trigger] latest(after, k) == (if k == id {
                    Some(v)
                } else {
                    latest(before, k)
                }) by {
                    lemma_latest(after, k);
                    lemma_latest(before, k);
                    if k == id {
                        assert(after[i as int].id == id);
                    } else if latest(before, k) is Some {
                        let w = choose|w: int| 0 <= w < before.len() && before[w].id == k;
                        assert(after[w] == before[w]);
                    } else {
                        assert forall|w: int| 0 <= w < after.len() implies after[w].id != k by {
                            if w != i {
                                assert(after[w] == before[w]);
                            }
                        }
                    }
                }
                assert(catalog(after) =~= catalog(before).insert(id, v));
            }
            return ;
        }
        i = i + 1;
    }
    let ghost v = app@;
    apps.push(app);
    proof {
        assert(views(apps@) =~= before.push(v));
        lemma_catalog_push(before, v);
        assert forall|j: int, k: int| 0 <= j < k < views(apps@).len() implies views(apps@)[j].id
            != views(apps@)[k].id by {
            if k < n {
                assert(views(apps@)[j] == before[j] && views(apps@)[k] == before[k]);
            } else {
                assert(views(apps@)[j] == before[j]);
            }
        }
    }
}

/// Inserts each application of `more` into the catalogue `apps`, in order
/// (as `HashMap::extend` does).
pub fn extend_apps(apps: &mut Vec<DesktopApp>, more: Vec<DesktopApp>)
    requires
        unique_ids(views(old(apps)@)),
    ensures
        unique_ids(views(final(apps)@)),
        catalog(views(final(apps)@)) == catalog(views(old(apps)@) + views(more@)),
{
    let ghost start = views(apps@);
    let ghost all = views(more@);
    let mut rest = more;
    let ghost done: int = 0;
    assert(all.take(0) =~= Seq::<AppView>::empty());
    assert(start + all.take(0) =~= start);
    assert(views(rest@) =~= all.skip(0));
    while rest.len() > 0
        invariant
            0 <= done <= all.len(),
            views(rest@) == all.skip(done),
            unique_ids(views(apps@)),
            catalog(views(apps@)) == catalog(start + all.take(done)),
        decreases rest@.len(),
    {
        let ghost old_rest = rest@;
        let app = rest.remove(0);
        proof {
            assert(app == old_rest[0]);
            assert(views(old_rest).len() == old_rest.len());
            assert(done < all.len());
            assert(views(old_rest)[0] == app@);
            assert(views(old_rest)[0] == all.skip(done)[0]);
            assert(app@ == all[done]);
            assert(start + all.take(done + 1) =~= (start + all.take(done)).push(app@));
            lemma_catalog_push(start + all.take(done), app@);
            assert forall|k: int| 0 <= k < rest@.len() implies views(rest@)[k] == all.skip(
                done + 1,
            )[k] by {
                assert(rest@[k] == old_rest[k + 1]);
                assert(views(old_rest)[k + 1] == all.skip(done)[k + 1]);
            }
            assert(views(rest@) =~= all.skip(done + 1));
        }
        insert_app(apps, app);
        proof {
            done = done + 1;
        }
    }
    assert(all.take(done) =~= all);
}

/// The catalogue filled from three sources in turn: an application of a
/// later source replaces one of an earlier source that has the same id.
pub fn merge_apps(first: Vec<DesktopApp>, second: Vec<DesktopApp>, third: Vec<DesktopApp>) -> (r:
    Vec<DesktopApp>)
    ensures
        unique_ids(views(r@)),
        catalog(views(r@)) == catalog(views(first@)).union_prefer_right(
            catalog(views(second@)),
        ).union_prefer_right(catalog(views(third@))),
{
    let ghost a = views(first@);
    let ghost b = views(second@);
    let ghost c = views(third@);
    let mut apps: Vec<DesktopApp> = Vec::new();
    assert(views(apps@) =~= Seq::<AppView>::empty());
    extend_apps(&mut apps, first);
    let ghost after_first = views(apps@);
    extend_apps(&mut apps, second);
    let ghost after_second = views(apps@);
    extend_apps(&mut apps, third);
    proof {
        assert(Seq::<AppView>::empty() + a =~= a);
        lemma_catalog_concat(after_first, b);
        lemma_catalog_concat(after_second, c);
    }
    apps
}


/// A catalogue of applications keyed by id, which no caller can give two
/// applications with one id.
pub struct AppCatalog {
    apps: Vec<DesktopApp>,
}

impl AppCatalog {
    #[verifier::type_invariant]
    spec fn ids_unique(self) -> bool {
        unique_ids(views(self.apps@))
    }

    /// The applications of the catalogue, in the order in which they are
    /// held.
    pub closed spec fn entries(self) -> Seq<AppView> {
        views(self.apps@)
    }

    /// An empty catalogue.
    pub fn new() -> (r: Self)
        ensures
            r.entries() == Seq::<AppView>::empty(),
    {
        let r = AppCatalog { apps: Vec::new() };
        assert(views(r.apps@) =~= Seq::<AppView>::empty());
        r
    }

    /// Puts `app` into the catalogue under its id, replacing the application
    /// that had that id.
    pub fn insert(&mut self, app: DesktopApp)
        ensures
            unique_ids(final(self).entries()),
            catalog(final(self).entries()) == catalog(old(self).entries()).insert(app.id@, app@),
    {
        proof {
            use_type_invariant(&*self);
        }
        let mut apps: Vec<DesktopApp> = Vec::new();
        std::mem::swap(&mut apps, &mut self.apps);
        insert_app(&mut apps, app);
        self.apps = apps;
    }

    /// The applications of the catalogue, no two with one id.
    pub fn into_apps(self) -> (r: Vec<DesktopApp>)
        ensures
            unique_ids(views(r@)),
            views(r@) == self.entries(),
    {
        proof {
            use_type_invariant(&self);
        }
        self.apps
    }
}

} // verus!
