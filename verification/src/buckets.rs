//! The list of buckets, assembled from what the store answered.

use vstd::prelude::*;
use crate::error::{
    AwsError, AwsErrorKind, StoreFailure, bucket_failure_kind, classify_bucket_failure,
};
use crate::text::{lemma_views_push, opt_chars, views};

verus! {

/// A bucket, as shown to the user.
pub struct S3Bucket {
    pub name: String,
    pub created_at: String,
    pub location: String,
}

/// What the store answered when asked where a bucket lies.
pub enum LocationAnswer {
    /// The request failed.
    Failed,
    /// The answer holds no location.
    Missing,
    /// The location.
    Found(String),
}

/// One bucket of the store's answer, with the answer to the request for its
/// location. A bucket without a name or without a creation date is not shown,
/// and its location is not looked at.
pub struct BucketRecord {
    pub name: Option<String>,
    pub created_at: Option<String>,
    pub location: LocationAnswer,
}

/// The mathematical value of an `S3Bucket`.
pub struct Bucket {
    pub name: Seq<char>,
    pub created_at: Seq<char>,
    pub location: Seq<char>,
}

/// The mathematical value of a `BucketRecord`.
pub struct BucketAnswer {
    pub name: Option<Seq<char>>,
    pub created_at: Option<Seq<char>>,
    pub location: Option<Seq<char>>,
}

impl View for S3Bucket {
    type V = Bucket;

    open spec fn view(&self) -> Bucket {
        Bucket { name: self.name@, created_at: self.created_at@, location: self.location@ }
    }
}

impl View for LocationAnswer {
    type V = Option<Seq<char>>;

    open spec fn view(&self) -> Option<Seq<char>> {
        match self {
            LocationAnswer::Found(l) => Some(l@),
            _ => None,
        }
    }
}

impl View for BucketRecord {
    type V = BucketAnswer;

    open spec fn view(&self) -> BucketAnswer {
        BucketAnswer {
            name: opt_chars(self.name),
            created_at: opt_chars(self.created_at),
            location: self.location@,
        }
    }
}

/// A bucket is shown where the store gave its name and its creation date.
pub open spec fn is_shown(r: BucketAnswer) -> bool {
    r.name is Some && r.created_at is Some
}

/// Every bucket that is shown has a location.
pub open spec fn all_located(rs: Seq<BucketAnswer>) -> bool {
    forall|i: int| 0 <= i < rs.len() && is_shown(#[trigger] rs[i]) ==> rs[i].location is Some
}

/// The bucket that a record is shown as.
pub open spec fn shown_bucket(r: BucketAnswer) -> Bucket {
    Bucket { name: r.name->0, created_at: r.created_at->0, location: r.location->0 }
}

/// The buckets that are shown, in the order of the store's answer.
pub open spec fn shown_buckets(rs: Seq<BucketAnswer>) -> Seq<Bucket>
    decreases rs.len(),
{
    if rs.len() == 0 {
        Seq::empty()
    } else if is_shown(rs.last()) {
        shown_buckets(rs.drop_last()).push(shown_bucket(rs.last()))
    } else {
        shown_buckets(rs.drop_last())
    }
}

/// The buckets that are shown. A shown bucket whose location is not known
/// makes the whole list fail with `NotFoundObject`.
pub fn show_buckets(records: &Vec<BucketRecord>) -> (r: Result<Vec<S3Bucket>, AwsError>)
    ensures
        match r {
            Ok(list) => all_located(views(records@)) && views(list@) == shown_buckets(
                views(records@),
            ),
            Err(e) => !all_located(views(records@)) && e.kind_spec()
                == AwsErrorKind::NotFoundObject,
        },
{
    let mut list: Vec<S3Bucket> = Vec::new();
    let mut i: usize = 0;
    while i < records.len()
        invariant
            i <= records.len(),
            all_located(views(records@).take(i as int)),
            views(list@) == shown_buckets(views(records@).take(i as int)),
        decreases records.len() - i,
    {
        let ghost upto = views(records@).take(i + 1);
        proof {
            assert(upto.drop_last() == views(records@).take(i as int));
            assert(upto.last() == records@[i as int]@);
        }
        let record = &records[i];
        if let Some(name) = &record.name {
            if let Some(created_at) = &record.created_at {
                match &record.location {
                    LocationAnswer::Found(location) => {
                        let bucket = S3Bucket {
                            name: name.clone(),
                            created_at: created_at.clone(),
                            location: location.clone(),
                        };
                        proof {
                            lemma_views_push(list@, bucket);
                        }
                        list.push(bucket);
                    },
                    _ => {
                        assert(is_shown(views(records@)[i as int]));
                        return Err(AwsError::new(AwsErrorKind::NotFoundObject));
                    },
                }
            }
        }
        assert forall|k: int|
            0 <= k < upto.len() && is_shown(#[trigger] upto[k]) implies upto[k].location is Some by {
            if k < i {
                assert(upto[k] == views(records@).take(i as int)[k]);
            }
        }
        i += 1;
    }
    assert(views(records@).take(records.len() as int) == views(records@));
    Ok(list)
}

/// The list of buckets for the store's answer. A failed request is reported
/// by its kind: an expired token where the service says so, access denied
/// otherwise.
pub fn list_buckets(answer: &Result<Vec<BucketRecord>, StoreFailure>) -> (r: Result<
    Vec<S3Bucket>,
    AwsError,
>)
    ensures
        match *answer {
            Err(f) => r is Err && r->Err_0.kind_spec() == bucket_failure_kind(f),
            Ok(records) => match r {
                Ok(list) => all_located(views(records@)) && views(list@) == shown_buckets(
                    views(records@),
                ),
                Err(e) => !all_located(views(records@)) && e.kind_spec()
                    == AwsErrorKind::NotFoundObject,
            },
        },
{
    match answer {
        Err(f) => Err(classify_bucket_failure(f)),
        Ok(records) => show_buckets(records),
    }
}

} // verus!
