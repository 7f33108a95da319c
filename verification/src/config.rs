//! The user's configuration: the selected profile, the download directory,
//! whether folders are archived, and the favorites of each profile.

use vstd::prelude::*;
use crate::strmap::StrMap;
use crate::text::{
    first_index, lemma_first_index, lemma_first_index_is, lemma_views_push, opt_chars, push_new,
    views,
};

verus! {

/// A place in the store that the user marked: a bucket and a prefix in it.
pub struct Favorite {
    bucket: String,
    prefix: String,
}

/// The favorites of each profile.
pub struct Favorites {
    pub items: StrMap<Vec<Favorite>>,
}

/// The user's configuration.
pub struct UserConfig {
    /// The selected profile.
    pub profile: Option<String>,
    /// The favorites of each profile.
    pub favorites: Option<Favorites>,
    /// The directory that downloads are written to.
    pub download_dir: Option<String>,
    /// Whether a downloaded folder is packed into an archive.
    pub dir_zip: bool,
}

/// The mathematical value of a `Favorite`.
pub struct Place {
    pub bucket: Seq<char>,
    pub prefix: Seq<char>,
}

/// The favorites of each profile, as a map.
pub type Places = Map<Seq<char>, Seq<Place>>;

impl View for Favorite {
    type V = Place;

    closed spec fn view(&self) -> Place {
        Place { bucket: self.bucket@, prefix: self.prefix@ }
    }
}

/// `s` without the first occurrence of `x`.
pub open spec fn remove_first<T>(s: Seq<T>, x: T) -> Seq<T> {
    if first_index(s, x) < s.len() {
        s.remove(first_index(s, x))
    } else {
        s
    }
}

impl Favorite {
    /// The favorite for a bucket and a prefix.
    pub fn new(bucket: String, prefix: String) -> (f: Self)
        ensures
            f@ == (Place { bucket: bucket@, prefix: prefix@ }),
    {
        Favorite { bucket, prefix }
    }

    /// The bucket.
    pub fn bucket(&self) -> (r: &String)
        ensures
            r@ == self@.bucket,
    {
        &self.bucket
    }

    /// The prefix.
    pub fn prefix(&self) -> (r: &String)
        ensures
            r@ == self@.prefix,
    {
        &self.prefix
    }

    /// A copy of the favorite.
    pub fn copy(&self) -> (f: Self)
        ensures
            f@ == self@,
    {
        Favorite { bucket: self.bucket.clone(), prefix: self.prefix.clone() }
    }

    /// Whether two favorites name the same place.
    pub fn same_place(&self, other: &Favorite) -> (r: bool)
        ensures
            r == (self@ == other@),
    {
        self.bucket == other.bucket && self.prefix == other.prefix
    }
}

/// The index of the first favorite of that place, or the length of the list.
pub fn find_place(list: &Vec<Favorite>, fav: &Favorite) -> (r: usize)
    ensures
        r == first_index(views(list@), fav@),
{
    let mut i: usize = 0;
    while i < list.len() && !list[i].same_place(fav)
        invariant
            i <= list.len(),
            forall|k: int| 0 <= k < i ==> views(list@)[k] != fav@,
        decreases list.len() - i,
    {
        i += 1;
    }
    proof {
        lemma_first_index_is(views(list@), fav@, i as int);
    }
    i
}

/// A copy of the list.
pub fn copy_places(list: &Vec<Favorite>) -> (r: Vec<Favorite>)
    ensures
        views(r@) == views(list@),
{
    let mut r: Vec<Favorite> = Vec::new();
    let mut i: usize = 0;
    while i < list.len()
        invariant
            i <= list.len(),
            views(r@) == views(list@).take(i as int),
        decreases list.len() - i,
    {
        let f = list[i].copy();
        proof {
            lemma_views_push(r@, f);
            assert(views(list@).take(i + 1) == views(list@).take(i as int).push(f@));
        }
        r.push(f);
        i += 1;
    }
    assert(views(list@).take(list.len() as int) == views(list@));
    r
}

impl Favorites {
    /// The favorites of each profile that has a list.
    pub open spec fn places(self) -> Places {
        Map::new(|p: Seq<char>| self.items.has(p), |p: Seq<char>| views(self.items.value_of(p)@))
    }

    /// The favorites of a profile; none where the profile has no list.
    pub open spec fn places_of(self, profile: Seq<char>) -> Seq<Place> {
        if self.items.has(profile) {
            views(self.items.value_of(profile)@)
        } else {
            Seq::empty()
        }
    }

    /// No favorites.
    pub fn new() -> (f: Self)
        ensures
            f.places() == Map::<Seq<char>, Seq<Place>>::empty(),
            f.items.keys() == Seq::<Seq<char>>::empty(),
    {
        let f = Favorites { items: StrMap::new() };
        assert(f.places() =~= Map::<Seq<char>, Seq<Place>>::empty());
        f
    }

    /// Adds a favorite to the list of a profile, unless the list holds that
    /// place. A profile without a list gets one.
    pub fn add_favorite(&mut self, profile: String, fav: Favorite)
        ensures
            final(self).items.keys() == push_new(old(self).items.keys(), profile@),
            final(self).places() == old(self).places().insert(
                profile@,
                push_new(old(self).places_of(profile@), fav@),
            ),
    {
        let ghost before = self.items;
        match self.items.find(profile.as_str()) {
            Some(i) => {
                let mut list: Vec<Favorite> = Vec::new();
                self.items.swap_value(i, &mut list);
                let ghost held = list;
                if find_place(&list, &fav) == list.len() {
                    proof {
                        lemma_views_push(list@, fav);
                        lemma_first_index(views(list@), fav@);
                    }
                    list.push(fav);
                } else {
                    proof {
                        lemma_first_index(views(list@), fav@);
                    }
                }
                let ghost filled = list;
                self.items.swap_value(i, &mut list);
                proof {
                    before.lemma_wf();
                    self.items.lemma_wf();
                    lemma_first_index(before.keys(), profile@);
                    assert(self.items.values() == before.values().update(i as int, filled));
                    assert(views(filled@) == push_new(views(held@), fav@));
                    assert(self.places() =~= old(self).places().insert(
                        profile@,
                        push_new(old(self).places_of(profile@), fav@),
                    )) by {
                        assert forall|p: Seq<char>| self.items.has(p) implies (
                        #[trigger] self.places()[p]) == old(self).places().insert(
                            profile@,
                            push_new(old(self).places_of(profile@), fav@),
                        )[p] by {
                            lemma_first_index(self.items.keys(), p);
                        }
                    }
                }
            },
            None => {
                let mut list: Vec<Favorite> = Vec::new();
                proof {
                    lemma_views_push(list@, fav);
                    assert(views(list@) == Seq::<Place>::empty());
                }
                list.push(fav);
                let ghost filled = list;
                self.items.insert(profile, list);
                proof {
                    before.lemma_insert_views(self.items, profile@, filled);
                    assert(self.places() =~= old(self).places().insert(
                        profile@,
                        push_new(old(self).places_of(profile@), fav@),
                    ));
                }
            },
        }
    }

    /// Removes the first favorite of that place from the list of a profile.
    /// Nothing changes where the profile has no list or the list does not
    /// hold the place.
    pub fn remove_favorite(&mut self, profile: String, fav: Favorite)
        ensures
            final(self).items.keys() == old(self).items.keys(),
            final(self).places() == if old(self).items.has(profile@) {
                old(self).places().insert(
                    profile@,
                    remove_first(old(self).places_of(profile@), fav@),
                )
            } else {
                old(self).places()
            },
    {
        let ghost before = self.items;
        match self.items.find(profile.as_str()) {
            Some(i) => {
                let mut list: Vec<Favorite> = Vec::new();
                self.items.swap_value(i, &mut list);
                let ghost held = list;
                let at = find_place(&list, &fav);
                if at < list.len() {
                    list.remove(at);
                    assert(views(list@) == views(held@).remove(at as int));
                }
                let ghost filled = list;
                self.items.swap_value(i, &mut list);
                proof {
                    before.lemma_wf();
                    self.items.lemma_wf();
                    lemma_first_index(before.keys(), profile@);
                    assert(self.items.values() == before.values().update(i as int, filled));
                    assert(views(filled@) == remove_first(views(held@), fav@));
                    assert(self.places() =~= old(self).places().insert(
                        profile@,
                        remove_first(old(self).places_of(profile@), fav@),
                    )) by {
                        assert forall|p: Seq<char>| self.items.has(p) implies (
                        #[trigger] self.places()[p]) == old(self).places().insert(
                            profile@,
                            remove_first(old(self).places_of(profile@), fav@),
                        )[p] by {
                            lemma_first_index(self.items.keys(), p);
                        }
                    }
                }
            },
            None => {},
        }
    }
}

/// The mathematical value of a `UserConfig`.
pub struct Preferences {
    pub profile: Option<Seq<char>>,
    pub favorites: Option<Places>,
    pub download_dir: Option<Seq<char>>,
    pub dir_zip: bool,
}

impl View for UserConfig {
    type V = Preferences;

    open spec fn view(&self) -> Preferences {
        Preferences {
            profile: opt_chars(self.profile),
            favorites: match self.favorites {
                Some(f) => Some(f.places()),
                None => None,
            },
            download_dir: opt_chars(self.download_dir),
            dir_zip: self.dir_zip,
        }
    }
}

/// The favorites after a favorite was added for a profile.
pub open spec fn places_with(places: Option<Places>, profile: Seq<char>, place: Place) -> Places {
    let held = match places {
        Some(m) => m,
        None => Map::empty(),
    };
    let list = if held.dom().contains(profile) {
        held[profile]
    } else {
        Seq::empty()
    };
    held.insert(profile, push_new(list, place))
}

/// The favorites after a favorite was removed for a profile.
pub open spec fn places_without(places: Places, profile: Seq<char>, place: Place) -> Places {
    if places.dom().contains(profile) {
        places.insert(profile, remove_first(places[profile], place))
    } else {
        places
    }
}

/// The configuration after a favorite of the selected profile was added or
/// removed. Without a selected profile nothing changes, and nothing is
/// removed where there are no favorites.
pub open spec fn updated_favorites(c: Preferences, place: Place, is_add: bool) -> Option<Places> {
    match c.profile {
        None => c.favorites,
        Some(profile) => if is_add {
            Some(places_with(c.favorites, profile, place))
        } else {
            match c.favorites {
                Some(places) => Some(places_without(places, profile, place)),
                None => None,
            }
        },
    }
}

impl UserConfig {
    /// The configuration of a user who has chosen nothing yet: no profile,
    /// no favorites, downloads to the given directory, folders not archived.
    pub fn with_download_dir(download_dir: Option<String>) -> (c: Self)
        ensures
            c@ == (Preferences {
                profile: None,
                favorites: None,
                download_dir: opt_chars(download_dir),
                dir_zip: default_dir_zip(),
            }),
    {
        UserConfig { profile: None, favorites: None, download_dir, dir_zip: default_dir_zip() }
    }

    /// Adds a favorite for the selected profile, or removes it.
    pub fn update_favorite(&mut self, fav: Favorite, is_add: bool)
        ensures
            final(self)@ == (Preferences {
                favorites: updated_favorites(old(self)@, fav@, is_add),
                ..old(self)@
            }),
    {
        let profile = match &self.profile {
            Some(p) => p.clone(),
            None => {
                return ;
            },
        };
        if is_add {
            let mut favorites = match self.favorites.take() {
                Some(f) => f,
                None => Favorites::new(),
            };
            favorites.add_favorite(profile, fav);
            self.favorites = Some(favorites);
        } else {
            match self.favorites.take() {
                Some(f) => {
                    let mut favorites = f;
                    favorites.remove_favorite(profile, fav);
                    self.favorites = Some(favorites);
                },
                None => {},
            }
        }
    }
}

/// Whether a downloaded folder is archived unless the user says so.
pub open spec fn default_dir_zip_spec() -> bool {
    false
}

/// Whether a downloaded folder is archived unless the user says so.
#[verifier::when_used_as_spec(default_dir_zip_spec)]
pub fn default_dir_zip() -> (r: bool)
    ensures
        r == default_dir_zip_spec(),
{
    false
}

/// The favorites of the selected profile, in the order in which they were
/// added; none without a selected profile or without favorites.
pub open spec fn selected_places(c: Preferences) -> Seq<Place> {
    match (c.profile, c.favorites) {
        (Some(profile), Some(places)) => if places.dom().contains(profile) {
            places[profile]
        } else {
            Seq::empty()
        },
        _ => Seq::empty(),
    }
}

/// The favorites of the selected profile.
pub fn list_favorite(conf: &UserConfig) -> (list: Vec<Favorite>)
    ensures
        views(list@) == selected_places(conf@),
{
    if let Some(profile) = &conf.profile {
        if let Some(favorites) = &conf.favorites {
            if let Some(found) = favorites.items.get(profile.as_str()) {
                return copy_places(found);
            }
        }
    }
    let list: Vec<Favorite> = Vec::new();
    assert(views(list@) == Seq::<Place>::empty());
    list
}

/// The configuration with a new download directory and a new choice on
/// archiving.
pub fn save_config(conf: UserConfig, download_dir: String, dir_zip: bool) -> (saved: UserConfig)
    ensures
        saved@ == (Preferences { download_dir: Some(download_dir@), dir_zip, ..conf@ }),
{
    let mut saved = conf;
    saved.download_dir = Some(download_dir);
    saved.dir_zip = dir_zip;
    saved
}

/// The configuration with `p` as the selected profile.
pub fn set_profile(conf: UserConfig, p: String) -> (saved: UserConfig)
    ensures
        saved@ == (Preferences { profile: Some(p@), ..conf@ }),
{
    let mut saved = conf;
    saved.profile = Some(p);
    saved
}

/// The selected profile.
pub fn get_selected_profile(conf: &UserConfig) -> (r: Option<String>)
    ensures
        opt_chars(r) == conf@.profile,
{
    conf.profile.clone()
}

} // verus!
