//! Reporting the fields that a record's field type does not interpret.
use vstd::prelude::*;

use crate::structs::field::FieldHeader;
use crate::structs::record::Record;

verus! {

/// A field type that can say which field it did not interpret.
pub trait UnhandledField {
    /// The header of the field, where it was not interpreted.
    spec fn spec_unhandled_field(&self) -> Option<FieldHeader>;

    fn get_unhandled_field(&self) -> (r: Option<FieldHeader>)
        ensures
            r == self.spec_unhandled_field(),
    ;
}

/// A collection of fields that can list the headers of those not interpreted.
pub trait UnhandledFields {
    /// The headers of the fields that were not interpreted.
    spec fn spec_unhandled_fields(&self) -> Set<FieldHeader>;

    /// Each header once, in no particular order.
    fn get_unhandled_fields(&self) -> (r: Vec<FieldHeader>)
        ensures
            r@.to_set() == self.spec_unhandled_fields(),
            r@.no_duplicates(),
    ;
}

/// Whether `headers` holds `h`.
fn holds_header(headers: &Vec<FieldHeader>, h: &FieldHeader) -> (r: bool)
    ensures
        r == headers@.contains(*h),
{
    let mut k: usize = 0;
    while k < headers.len()
        invariant
            k <= headers.len(),
            forall|j: int| 0 <= j < k ==> headers@[j] != *h,
        decreases headers.len() - k,
    {
        if headers[k] == *h {
            return true;
        }
        k = k + 1;
    }
    false
}

impl<T: UnhandledField> UnhandledFields for Record<T> {
    open spec fn spec_unhandled_fields(&self) -> Set<FieldHeader> {
        Set::new(
            |h: FieldHeader|
                exists|i: int|
                    0 <= i < self.fields@.len() && #[trigger] self.fields@[i].spec_unhandled_field()
                        == Some(h),
        )
    }

    fn get_unhandled_fields(&self) -> (r: Vec<FieldHeader>) {
        let mut fields: Vec<FieldHeader> = Vec::new();
        let mut i: usize = 0;
        while i < self.fields.len()
            invariant
                i <= self.fields@.len(),
                fields@.no_duplicates(),
                forall|h: FieldHeader|
                    fields@.contains(h) <==> exists|j: int|
                        0 <= j < i && #[trigger] self.fields@[j].spec_unhandled_field() == Some(h),
            decreases self.fields@.len() - i,
        {
            let ghost old_fields = fields@;
            let found = self.fields[i].get_unhandled_field();
            if let Some(f) = found {
                if !holds_header(&fields, &f) {
                    fields.push(f);
                }
            }
            proof {
                assert forall|h: FieldHeader|
                    fields@.contains(h) <==> exists|j: int|
                        0 <= j < i + 1 && #[trigger] self.fields@[j].spec_unhandled_field() == Some(
                            h,
                        ) by {
                    if fields@.contains(h) {
                        if !old_fields.contains(h) {
                            assert(self.fields@[i as int].spec_unhandled_field() == Some(h));
                        }
                    }
                    if exists|j: int|
                        0 <= j < i + 1 && #[trigger] self.fields@[j].spec_unhandled_field() == Some(
                            h,
                        ) {
                        let j = choose|j: int|
                            0 <= j < i + 1 && #[trigger] self.fields@[j].spec_unhandled_field()
                                == Some(h);
                        if j == i {
                            if !old_fields.contains(h) {
                                assert(fields@.last() == h);
                            }
                        }
                        if old_fields.contains(h) {
                            let k = choose|k: int| 0 <= k < old_fields.len() && old_fields[k] == h;
                            assert(fields@[k] == h);
                        }
                    }
                }
            }
            i = i + 1;
        }
        assert(fields@.to_set() =~= self.spec_unhandled_fields());
        fields
    }
}

} // verus!
