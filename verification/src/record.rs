//! The typed metadata record: every attribute of the source document is
//! independently optional, and absent attributes stay absent rather than
//! defaulting.
//!
//! The source document names its fields in camel case; the record maps each
//! 1:1 to its own attribute.  Unknown fields are ignored.  A present field
//! of the wrong type is a parse failure.

use vstd::prelude::*;

use crate::Error;
use crate::json::{Json, JVal, view_elems, view_members};

verus! {

/// The source-document field name mapped to `version`.
pub open spec fn key_version() -> Seq<char> {
    seq!['v', 'e', 'r', 's', 'i', 'o', 'n']
}

/// The source-document field name mapped to `vendor`.
pub open spec fn key_vendor() -> Seq<char> {
    seq!['v', 'e', 'n', 'd', 'o', 'r']
}

/// The source-document field name mapped to `imaging_mode`.
pub open spec fn key_imaging_mode() -> Seq<char> {
    seq!['i', 'm', 'a', 'g', 'i', 'n', 'g', 'M', 'o', 'd', 'e']
}

/// The source-document field name mapped to `order_type`.
pub open spec fn key_order_type() -> Seq<char> {
    seq!['o', 'r', 'd', 'e', 'r', 'T', 'y', 'p', 'e']
}

/// The source-document field name mapped to `product_sku`.
pub open spec fn key_product_sku() -> Seq<char> {
    seq!['p', 'r', 'o', 'd', 'u', 'c', 't', 'S', 'k', 'u']
}

/// The source-document field name mapped to `base_ipr`.
pub open spec fn key_base_ipr() -> Seq<char> {
    seq!['b', 'a', 's', 'e', 'I', 'p', 'r']
}

/// The source-document field name mapped to `target_ipr`.
pub open spec fn key_target_ipr() -> Seq<char> {
    seq!['t', 'a', 'r', 'g', 'e', 't', 'I', 'p', 'r']
}

/// The source-document field name mapped to `umbra_satellite_name`.
pub open spec fn key_umbra_satellite_name() -> Seq<char> {
    seq!['u', 'm', 'b', 'r', 'a', 'S', 'a', 't', 'e', 'l', 'l', 'i', 't', 'e', 'N', 'a', 'm', 'e']
}

/// The source-document field name mapped to `collects`.
pub open spec fn key_collects() -> Seq<char> {
    seq!['c', 'o', 'l', 'l', 'e', 'c', 't', 's']
}

/// The source-document field name mapped to `derived_products`.
pub open spec fn key_derived_products() -> Seq<char> {
    seq!['d', 'e', 'r', 'i', 'v', 'e', 'd', 'P', 'r', 'o', 'd', 'u', 'c', 't', 's']
}

fn key_is_version(k: &Vec<char>) -> (b: bool)
    ensures
        b == (k@ == key_version()),
{
    let r = k.len() == 7 && k[0] == 'v' && k[1] == 'e' && k[2] == 'r' && k[3] == 's' && k[4] == 'i' && k[5] == 'o' && k[6] == 'n';
    proof {
        if r {
            assert(k@ =~= key_version());
        }
    }
    r
}

fn key_is_vendor(k: &Vec<char>) -> (b: bool)
    ensures
        b == (k@ == key_vendor()),
{
    let r = k.len() == 6 && k[0] == 'v' && k[1] == 'e' && k[2] == 'n' && k[3] == 'd' && k[4] == 'o' && k[5] == 'r';
    proof {
        if r {
            assert(k@ =~= key_vendor());
        }
    }
    r
}

fn key_is_imaging_mode(k: &Vec<char>) -> (b: bool)
    ensures
        b == (k@ == key_imaging_mode()),
{
    let r = k.len() == 11 && k[0] == 'i' && k[1] == 'm' && k[2] == 'a' && k[3] == 'g' && k[4] == 'i' && k[5] == 'n' && k[6] == 'g' && k[7] == 'M' && k[8] == 'o' && k[9] == 'd' && k[10] == 'e';
    proof {
        if r {
            assert(k@ =~= key_imaging_mode());
        }
    }
    r
}

fn key_is_order_type(k: &Vec<char>) -> (b: bool)
    ensures
        b == (k@ == key_order_type()),
{
    let r = k.len() == 9 && k[0] == 'o' && k[1] == 'r' && k[2] == 'd' && k[3] == 'e' && k[4] == 'r' && k[5] == 'T' && k[6] == 'y' && k[7] == 'p' && k[8] == 'e';
    proof {
        if r {
            assert(k@ =~= key_order_type());
        }
    }
    r
}

fn key_is_product_sku(k: &Vec<char>) -> (b: bool)
    ensures
        b == (k@ == key_product_sku()),
{
    let r = k.len() == 10 && k[0] == 'p' && k[1] == 'r' && k[2] == 'o' && k[3] == 'd' && k[4] == 'u' && k[5] == 'c' && k[6] == 't' && k[7] == 'S' && k[8] == 'k' && k[9] == 'u';
    proof {
        if r {
            assert(k@ =~= key_product_sku());
        }
    }
    r
}

fn key_is_base_ipr(k: &Vec<char>) -> (b: bool)
    ensures
        b == (k@ == key_base_ipr()),
{
    let r = k.len() == 7 && k[0] == 'b' && k[1] == 'a' && k[2] == 's' && k[3] == 'e' && k[4] == 'I' && k[5] == 'p' && k[6] == 'r';
    proof {
        if r {
            assert(k@ =~= key_base_ipr());
        }
    }
    r
}

fn key_is_target_ipr(k: &Vec<char>) -> (b: bool)
    ensures
        b == (k@ == key_target_ipr()),
{
    let r = k.len() == 9 && k[0] == 't' && k[1] == 'a' && k[2] == 'r' && k[3] == 'g' && k[4] == 'e' && k[5] == 't' && k[6] == 'I' && k[7] == 'p' && k[8] == 'r';
    proof {
        if r {
            assert(k@ =~= key_target_ipr());
        }
    }
    r
}

fn key_is_umbra_satellite_name(k: &Vec<char>) -> (b: bool)
    ensures
        b == (k@ == key_umbra_satellite_name()),
{
    let r = k.len() == 18 && k[0] == 'u' && k[1] == 'm' && k[2] == 'b' && k[3] == 'r' && k[4] == 'a' && k[5] == 'S' && k[6] == 'a' && k[7] == 't' && k[8] == 'e' && k[9] == 'l' && k[10] == 'l' && k[11] == 'i' && k[12] == 't' && k[13] == 'e' && k[14] == 'N' && k[15] == 'a' && k[16] == 'm' && k[17] == 'e';
    proof {
        if r {
            assert(k@ =~= key_umbra_satellite_name());
        }
    }
    r
}

fn key_is_collects(k: &Vec<char>) -> (b: bool)
    ensures
        b == (k@ == key_collects()),
{
    let r = k.len() == 8 && k[0] == 'c' && k[1] == 'o' && k[2] == 'l' && k[3] == 'l' && k[4] == 'e' && k[5] == 'c' && k[6] == 't' && k[7] == 's';
    proof {
        if r {
            assert(k@ =~= key_collects());
        }
    }
    r
}

fn key_is_derived_products(k: &Vec<char>) -> (b: bool)
    ensures
        b == (k@ == key_derived_products()),
{
    let r = k.len() == 15 && k[0] == 'd' && k[1] == 'e' && k[2] == 'r' && k[3] == 'i' && k[4] == 'v' && k[5] == 'e' && k[6] == 'd' && k[7] == 'P' && k[8] == 'r' && k[9] == 'o' && k[10] == 'd' && k[11] == 'u' && k[12] == 'c' && k[13] == 't' && k[14] == 's';
    proof {
        if r {
            assert(k@ =~= key_derived_products());
        }
    }
    r
}

/// The value of the first member with the given key, if any.
pub open spec fn find_key(ms: Seq<(Seq<char>, JVal)>, key: Seq<char>) -> Option<JVal>
    decreases ms.len(),
{
    if ms.len() == 0 {
        None
    } else if ms[0].0 == key {
        Some(ms[0].1)
    } else {
        find_key(ms.subrange(1, ms.len() as int), key)
    }
}

/// One metadata record.  Floating-point attributes are held as the decimal
/// literal that denotes the value, so the record stays within exact text;
/// the columnar mapping parses the literal once.  Absent is `None`, never
/// a default.
pub struct MetadataJson {
    pub version: Option<Vec<char>>,
    pub vendor: Option<Vec<char>>,
    pub imaging_mode: Option<Vec<char>>,
    pub order_type: Option<Vec<char>>,
    pub product_sku: Option<Vec<char>>,
    pub base_ipr: Option<Vec<char>>,
    pub target_ipr: Option<Vec<char>>,
    pub umbra_satellite_name: Option<Vec<char>>,
    pub collects: Option<Vec<Json>>,
    pub derived_products: Option<Vec<(Vec<char>, Json)>>,
}

/// The mathematical model of a record.
pub struct RecordV {
    pub version: Option<Seq<char>>,
    pub vendor: Option<Seq<char>>,
    pub imaging_mode: Option<Seq<char>>,
    pub order_type: Option<Seq<char>>,
    pub product_sku: Option<Seq<char>>,
    pub base_ipr: Option<Seq<char>>,
    pub target_ipr: Option<Seq<char>>,
    pub umbra_satellite_name: Option<Seq<char>>,
    pub collects: Option<Seq<JVal>>,
    pub derived_products: Option<Seq<(Seq<char>, JVal)>>,
}

/// The model of an optional text attribute.
pub open spec fn otv(o: Option<Vec<char>>) -> Option<Seq<char>> {
    match o {
        Option::Some(t) => Some(t@),
        Option::None => None,
    }
}

impl View for MetadataJson {
    type V = RecordV;

    open spec fn view(&self) -> RecordV {
        RecordV {
            version: otv(self.version),
            vendor: otv(self.vendor),
            imaging_mode: otv(self.imaging_mode),
            order_type: otv(self.order_type),
            product_sku: otv(self.product_sku),
            base_ipr: otv(self.base_ipr),
            target_ipr: otv(self.target_ipr),
            umbra_satellite_name: otv(self.umbra_satellite_name),
            collects: match self.collects {
                Option::Some(es) => Some(view_elems(es@)),
                Option::None => None,
            },
            derived_products: match self.derived_products {
                Option::Some(ms) => Some(view_members(ms@)),
                Option::None => None,
            },
        }
    }
}

/// A present text field must hold text or be null.
pub open spec fn txt_ok(fv: Option<JVal>) -> bool {
    match fv {
        Option::None => true,
        Option::Some(v) => v is Str || v is Null,
    }
}

/// The attribute a text field maps to.
pub open spec fn txt_val(fv: Option<JVal>) -> Option<Seq<char>> {
    match fv {
        Option::Some(JVal::Str(t)) => Some(t),
        _ => None,
    }
}

/// A present numeric field must hold a number or be null.
pub open spec fn num_ok(fv: Option<JVal>) -> bool {
    match fv {
        Option::None => true,
        Option::Some(v) => v is Num || v is Null,
    }
}

/// The attribute a numeric field maps to: the number's literal text.
pub open spec fn num_val(fv: Option<JVal>) -> Option<Seq<char>> {
    match fv {
        Option::Some(JVal::Num(t)) => Some(t),
        _ => None,
    }
}

/// The collects field must be a sequence of mappings, or null.
pub open spec fn collects_ok(fv: Option<JVal>) -> bool {
    match fv {
        Option::None => true,
        Option::Some(JVal::Arr(es)) => forall|k: int| 0 <= k < es.len() ==> (#[trigger] es[k]) is Obj,
        Option::Some(v) => v is Null,
    }
}

/// The sequence of collect records, if present.
pub open spec fn collects_val(fv: Option<JVal>) -> Option<Seq<JVal>> {
    match fv {
        Option::Some(JVal::Arr(es)) => Some(es),
        _ => None,
    }
}

/// The derived-products field must be a mapping, or null.
pub open spec fn derived_ok(fv: Option<JVal>) -> bool {
    match fv {
        Option::None => true,
        Option::Some(v) => v is Obj || v is Null,
    }
}

/// The members of the derived-products mapping, if present.
pub open spec fn derived_val(fv: Option<JVal>) -> Option<Seq<(Seq<char>, JVal)>> {
    match fv {
        Option::Some(JVal::Obj(ms)) => Some(ms),
        _ => None,
    }
}

/// Every field that is present in the document has the type the record
/// declares for it.
pub open spec fn fields_ok(ms: Seq<(Seq<char>, JVal)>) -> bool {
    &&& txt_ok(find_key(ms, key_version()))
    &&& txt_ok(find_key(ms, key_vendor()))
    &&& txt_ok(find_key(ms, key_imaging_mode()))
    &&& txt_ok(find_key(ms, key_order_type()))
    &&& txt_ok(find_key(ms, key_product_sku()))
    &&& num_ok(find_key(ms, key_base_ipr()))
    &&& num_ok(find_key(ms, key_target_ipr()))
    &&& txt_ok(find_key(ms, key_umbra_satellite_name()))
    &&& collects_ok(find_key(ms, key_collects()))
    &&& derived_ok(find_key(ms, key_derived_products()))
}

/// A well-typed record document: one mapping whose known fields are
/// well-typed and occur at most once each.  Unknown fields are ignored.
pub open spec fn doc_ok(m: JVal) -> bool {
    match m {
        JVal::Obj(ms) => fields_ok(ms) && !has_dup_known(ms),
        _ => false,
    }
}

/// The record a well-typed document denotes, attribute by attribute: each
/// attribute is the typing of the first member with its key.
pub open spec fn record_of(ms: Seq<(Seq<char>, JVal)>) -> RecordV {
    RecordV {
        version: txt_val(find_key(ms, key_version())),
        vendor: txt_val(find_key(ms, key_vendor())),
        imaging_mode: txt_val(find_key(ms, key_imaging_mode())),
        order_type: txt_val(find_key(ms, key_order_type())),
        product_sku: txt_val(find_key(ms, key_product_sku())),
        base_ipr: num_val(find_key(ms, key_base_ipr())),
        target_ipr: num_val(find_key(ms, key_target_ipr())),
        umbra_satellite_name: txt_val(find_key(ms, key_umbra_satellite_name())),
        collects: collects_val(find_key(ms, key_collects())),
        derived_products: derived_val(find_key(ms, key_derived_products())),
    }
}

/// A key the record model knows.
pub open spec fn known_key(k: Seq<char>) -> bool {
    ||| k == key_version()
    ||| k == key_vendor()
    ||| k == key_imaging_mode()
    ||| k == key_order_type()
    ||| k == key_product_sku()
    ||| k == key_base_ipr()
    ||| k == key_target_ipr()
    ||| k == key_umbra_satellite_name()
    ||| k == key_collects()
    ||| k == key_derived_products()
}

/// Some known field name occurs on two members.
pub open spec fn has_dup_known(ms: Seq<(Seq<char>, JVal)>) -> bool {
    exists|x: int, y: int|
        0 <= x < y < ms.len() && (#[trigger] ms[x].0) == (#[trigger] ms[y].0) && known_key(
            ms[x].0,
        )
}

/// The record a well-typed document maps to, attribute by attribute.
pub open spec fn record_matches(ms: Seq<(Seq<char>, JVal)>, rv: RecordV) -> bool {
    &&& rv.version == txt_val(find_key(ms, key_version()))
    &&& rv.vendor == txt_val(find_key(ms, key_vendor()))
    &&& rv.imaging_mode == txt_val(find_key(ms, key_imaging_mode()))
    &&& rv.order_type == txt_val(find_key(ms, key_order_type()))
    &&& rv.product_sku == txt_val(find_key(ms, key_product_sku()))
    &&& rv.base_ipr == num_val(find_key(ms, key_base_ipr()))
    &&& rv.target_ipr == num_val(find_key(ms, key_target_ipr()))
    &&& rv.umbra_satellite_name == txt_val(find_key(ms, key_umbra_satellite_name()))
    &&& rv.collects == collects_val(find_key(ms, key_collects()))
    &&& rv.derived_products == derived_val(find_key(ms, key_derived_products()))
}

} // verus!

verus! {

/// The two field names of equal length differ.
proof fn lemma_keys_distinct()
    ensures
        key_version() != key_base_ipr(),
        key_order_type() != key_target_ipr(),
{
    assert(key_version()[0] == 'v');
    assert(key_base_ipr()[0] == 'b');
    assert(key_order_type()[0] == 'o');
    assert(key_target_ipr()[0] == 't');
}

/// Dropping the first member commutes with taking models.
proof fn lemma_view_members_drop_first(s: Seq<(Vec<char>, Json)>)
    requires
        s.len() > 0,
    ensures
        view_members(s.subrange(1, s.len() as int)) =~= view_members(s).subrange(
            1,
            s.len() as int,
        ),
{
    crate::json::lemma_view_members(s);
    crate::json::lemma_view_members(s.subrange(1, s.len() as int));
    assert forall|q: int|
        0 <= q < s.len() - 1 implies view_members(s.subrange(1, s.len() as int))[q]
        == view_members(s).subrange(1, s.len() as int)[q] by {
        assert(s.subrange(1, s.len() as int)[q] == s[q + 1]);
        assert(view_members(s.subrange(1, s.len() as int))[q] == (
        s.subrange(1, s.len() as int)[q].0@,
        s.subrange(1, s.len() as int)[q].1@,
        ));
        assert(view_members(s)[q + 1] == (s[q + 1].0@, s[q + 1].1@));
        assert(view_members(s).subrange(1, s.len() as int)[q] == view_members(s)[q + 1]);
    }
}

/// The state of one optional text attribute while the members are walked:
/// once its key has been seen, the attribute equals what the whole document
/// gives it; before that, its key is still ahead and the attribute is empty.
spec fn tstate(
    fv: Option<JVal>,
    seen: bool,
    cur: Option<Seq<char>>,
    fv_rest: Option<JVal>,
) -> bool {
    if seen {
        txt_ok(fv) && cur == txt_val(fv) && fv is Some
    } else {
        fv == fv_rest && cur is None
    }
}

/// As `tstate`, for a numeric attribute.
spec fn nstate(
    fv: Option<JVal>,
    seen: bool,
    cur: Option<Seq<char>>,
    fv_rest: Option<JVal>,
) -> bool {
    if seen {
        num_ok(fv) && cur == num_val(fv) && fv is Some
    } else {
        fv == fv_rest && cur is None
    }
}

/// As `tstate`, for the collects attribute.
spec fn cstate(
    fv: Option<JVal>,
    seen: bool,
    cur: Option<Seq<JVal>>,
    fv_rest: Option<JVal>,
) -> bool {
    if seen {
        collects_ok(fv) && cur == collects_val(fv) && fv is Some
    } else {
        fv == fv_rest && cur is None
    }
}

/// As `tstate`, for the derived-products attribute.
spec fn dstate(
    fv: Option<JVal>,
    seen: bool,
    cur: Option<Seq<(Seq<char>, JVal)>>,
    fv_rest: Option<JVal>,
) -> bool {
    if seen {
        derived_ok(fv) && cur == derived_val(fv) && fv is Some
    } else {
        fv == fv_rest && cur is None
    }
}

impl MetadataJson {
    /// Builds the typed record from a parsed document.  The document must
    /// be one mapping; its known fields are taken by name, at most one
    /// occurrence each, each checked against its declared type; unknown
    /// fields are ignored; fields that are absent or null stay absent.
    #[verifier::loop_isolation(false)]
    #[verifier::rlimit(60)]
    pub fn from_json(doc: Json) -> (r: Result<MetadataJson, Error>)
        ensures
            match r {
                Result::Ok(rec) => doc@ matches JVal::Obj(ms) && fields_ok(ms)
                    && !has_dup_known(ms) && record_matches(ms, rec@),
                Result::Err(e) => !doc_ok(doc@) && e is Parse,
            },
    {
        let ghost dm = doc@;
        let mut members = match doc {
            Json::Obj(ms) => ms,
            _ => {
                return Err(Error::Parse);
            },
        };
        let ghost full = view_members(members@);
        proof {
            assert(dm == JVal::Obj(full));
        }
        if check_dup_known(&members) {
            return Err(Error::Parse);
        }
        let mut version: Option<Vec<char>> = None;
        let mut vendor: Option<Vec<char>> = None;
        let mut imaging_mode: Option<Vec<char>> = None;
        let mut order_type: Option<Vec<char>> = None;
        let mut product_sku: Option<Vec<char>> = None;
        let mut base_ipr: Option<Vec<char>> = None;
        let mut target_ipr: Option<Vec<char>> = None;
        let mut umbra_satellite_name: Option<Vec<char>> = None;
        let mut collects: Option<Vec<Json>> = None;
        let mut derived_products: Option<Vec<(Vec<char>, Json)>> = None;
        let mut seen_version: bool = false;
        let mut seen_vendor: bool = false;
        let mut seen_imaging_mode: bool = false;
        let mut seen_order_type: bool = false;
        let mut seen_product_sku: bool = false;
        let mut seen_base_ipr: bool = false;
        let mut seen_target_ipr: bool = false;
        let mut seen_umbra_satellite_name: bool = false;
        let mut seen_collects: bool = false;
        let mut seen_derived_products: bool = false;
        while members.len() > 0
            invariant
                tstate(
                    find_key(full, key_version()),
                    seen_version,
                    otv(version),
                    find_key(view_members(members@), key_version()),
                ),
                tstate(
                    find_key(full, key_vendor()),
                    seen_vendor,
                    otv(vendor),
                    find_key(view_members(members@), key_vendor()),
                ),
                tstate(
                    find_key(full, key_imaging_mode()),
                    seen_imaging_mode,
                    otv(imaging_mode),
                    find_key(view_members(members@), key_imaging_mode()),
                ),
                tstate(
                    find_key(full, key_order_type()),
                    seen_order_type,
                    otv(order_type),
                    find_key(view_members(members@), key_order_type()),
                ),
                tstate(
                    find_key(full, key_product_sku()),
                    seen_product_sku,
                    otv(product_sku),
                    find_key(view_members(members@), key_product_sku()),
                ),
                nstate(
                    find_key(full, key_base_ipr()),
                    seen_base_ipr,
                    otv(base_ipr),
                    find_key(view_members(members@), key_base_ipr()),
                ),
                nstate(
                    find_key(full, key_target_ipr()),
                    seen_target_ipr,
                    otv(target_ipr),
                    find_key(view_members(members@), key_target_ipr()),
                ),
                tstate(
                    find_key(full, key_umbra_satellite_name()),
                    seen_umbra_satellite_name,
                    otv(umbra_satellite_name),
                    find_key(view_members(members@), key_umbra_satellite_name()),
                ),
                cstate(
                    find_key(full, key_collects()),
                    seen_collects,
                    match collects {
                        Option::Some(es) => Some(view_elems(es@)),
                        Option::None => None,
                    },
                    find_key(view_members(members@), key_collects()),
                ),
                dstate(
                    find_key(full, key_derived_products()),
                    seen_derived_products,
                    match derived_products {
                        Option::Some(ds) => Some(view_members(ds@)),
                        Option::None => None,
                    },
                    find_key(view_members(members@), key_derived_products()),
                ),
            decreases members@.len(),
        {
            let ghost pre = members@;
            let ghost vm_pre = view_members(pre);
            let (k, v) = members.remove(0);
            proof {
                lemma_keys_distinct();
                crate::json::lemma_view_members(pre);
                assert(vm_pre[0] == (pre[0].0@, pre[0].1@));
                assert((k@, v@) == vm_pre[0]);
                assert(pre.remove(0) =~= pre.subrange(1, pre.len() as int));
                lemma_view_members_drop_first(pre);
                assert(view_members(members@) =~= vm_pre.subrange(1, vm_pre.len() as int));
            }
            if key_is_version(&k) {
                if !seen_version {
                    match v {
                        Json::Str(t) => {
                            version = Some(t);
                        },
                        Json::Null => {
                            version = None;
                        },
                        _ => {
                            proof {
                                crate::json::lemma_view_variant(v);
                                assert(find_key(full, key_version()) == Some(v@));
                            }
                            return Err(Error::Parse);
                        },
                    }
                    seen_version = true;
                }
            } else if key_is_vendor(&k) {
                if !seen_vendor {
                    match v {
                        Json::Str(t) => {
                            vendor = Some(t);
                        },
                        Json::Null => {
                            vendor = None;
                        },
                        _ => {
                            proof {
                                crate::json::lemma_view_variant(v);
                                assert(find_key(full, key_vendor()) == Some(v@));
                            }
                            return Err(Error::Parse);
                        },
                    }
                    seen_vendor = true;
                }
            } else if key_is_imaging_mode(&k) {
                if !seen_imaging_mode {
                    match v {
                        Json::Str(t) => {
                            imaging_mode = Some(t);
                        },
                        Json::Null => {
                            imaging_mode = None;
                        },
                        _ => {
                            proof {
                                crate::json::lemma_view_variant(v);
                                assert(find_key(full, key_imaging_mode()) == Some(v@));
                            }
                            return Err(Error::Parse);
                        },
                    }
                    seen_imaging_mode = true;
                }
            } else if key_is_order_type(&k) {
                if !seen_order_type {
                    match v {
                        Json::Str(t) => {
                            order_type = Some(t);
                        },
                        Json::Null => {
                            order_type = None;
                        },
                        _ => {
                            proof {
                                crate::json::lemma_view_variant(v);
                                assert(find_key(full, key_order_type()) == Some(v@));
                            }
                            return Err(Error::Parse);
                        },
                    }
                    seen_order_type = true;
                }
            } else if key_is_product_sku(&k) {
                if !seen_product_sku {
                    match v {
                        Json::Str(t) => {
                            product_sku = Some(t);
                        },
                        Json::Null => {
                            product_sku = None;
                        },
                        _ => {
                            proof {
                                crate::json::lemma_view_variant(v);
                                assert(find_key(full, key_product_sku()) == Some(v@));
                            }
                            return Err(Error::Parse);
                        },
                    }
                    seen_product_sku = true;
                }
            } else if key_is_base_ipr(&k) {
                if !seen_base_ipr {
                    match v {
                        Json::Num(t) => {
                            base_ipr = Some(t);
                        },
                        Json::Null => {
                            base_ipr = None;
                        },
                        _ => {
                            proof {
                                crate::json::lemma_view_variant(v);
                                assert(find_key(full, key_base_ipr()) == Some(v@));
                            }
                            return Err(Error::Parse);
                        },
                    }
                    seen_base_ipr = true;
                }
            } else if key_is_target_ipr(&k) {
                if !seen_target_ipr {
                    match v {
                        Json::Num(t) => {
                            target_ipr = Some(t);
                        },
                        Json::Null => {
                            target_ipr = None;
                        },
                        _ => {
                            proof {
                                crate::json::lemma_view_variant(v);
                                assert(find_key(full, key_target_ipr()) == Some(v@));
                            }
                            return Err(Error::Parse);
                        },
                    }
                    seen_target_ipr = true;
                }
            } else if key_is_umbra_satellite_name(&k) {
                if !seen_umbra_satellite_name {
                    match v {
                        Json::Str(t) => {
                            umbra_satellite_name = Some(t);
                        },
                        Json::Null => {
                            umbra_satellite_name = None;
                        },
                        _ => {
                            proof {
                                crate::json::lemma_view_variant(v);
                                assert(find_key(full, key_umbra_satellite_name()) == Some(v@));
                            }
                            return Err(Error::Parse);
                        },
                    }
                    seen_umbra_satellite_name = true;
                }
            } else if key_is_collects(&k) {
                if !seen_collects {
                    match v {
                        Json::Arr(es) => {
                            let ghost esm = view_elems(es@);
                            proof {
                                crate::json::lemma_view_elems(es@);
                            }
                            let mut q: usize = 0;
                            while q < es.len()
                                invariant
                                    q <= es@.len(),
                                    esm == view_elems(es@),
                                    find_key(full, key_collects()) == Some(JVal::Arr(esm)),
                                    forall|x: int| 0 <= x < q ==> (#[trigger] esm[x]) is Obj,
                                    esm.len() == es@.len(),
                                    forall|x: int|
                                        0 <= x < es@.len() ==> esm[x] == #[trigger] es@[x]@,
                                decreases es@.len() - q,
                            {
                                match &es[q] {
                                    Json::Obj(_) => {
                                        proof {
                                            crate::json::lemma_view_variant(es@[q as int]);
                                            assert(esm[q as int] is Obj);
                                        }
                                    },
                                    _ => {
                                        proof {
                                            crate::json::lemma_view_variant(es@[q as int]);
                                            assert(!(esm[q as int] is Obj));
                                        }
                                        return Err(Error::Parse);
                                    },
                                }
                                q = q + 1;
                            }
                            collects = Some(es);
                        },
                        Json::Null => {
                            collects = None;
                        },
                        _ => {
                            proof {
                                crate::json::lemma_view_variant(v);
                                assert(find_key(full, key_collects()) == Some(v@));
                            }
                            return Err(Error::Parse);
                        },
                    }
                    seen_collects = true;
                }
            } else if key_is_derived_products(&k) {
                if !seen_derived_products {
                    match v {
                        Json::Obj(ds) => {
                            derived_products = Some(ds);
                        },
                        Json::Null => {
                            derived_products = None;
                        },
                        _ => {
                            proof {
                                crate::json::lemma_view_variant(v);
                                assert(find_key(full, key_derived_products()) == Some(v@));
                            }
                            return Err(Error::Parse);
                        },
                    }
                    seen_derived_products = true;
                }
            }
        }
        proof {
            assert(view_members(members@) =~= Seq::<(Seq<char>, JVal)>::empty());
        }
        Ok(
            MetadataJson {
                version,
                vendor,
                imaging_mode,
                order_type,
                product_sku,
                base_ipr,
                target_ipr,
                umbra_satellite_name,
                collects,
                derived_products,
            },
        )
    }
}

} // verus!

verus! {

impl MetadataJson {
    /// Builds the record from the text of one document: parse the notation,
    /// then type the fields.  Fails with a parse error when the text is
    /// malformed or a present field has the wrong type.
    pub fn new(text: &Vec<char>) -> (r: Result<MetadataJson, Error>)
        ensures
            match r {
                Result::Ok(rec) => crate::json::sparse_doc(text@) matches Some(m) && doc_ok(m) && (
                m matches JVal::Obj(ms) && record_matches(ms, rec@)),
                Result::Err(e) => e is Parse && (crate::json::sparse_doc(text@) is None || (
                crate::json::sparse_doc(text@) matches Some(m) && !doc_ok(m))),
            },
    {
        match crate::json::parse_text(text) {
            Result::Ok(v) => MetadataJson::from_json(v),
            Result::Err(e) => Err(e),
        }
    }
}

} // verus!

verus! {

/// A matching record is the record the document denotes.
pub proof fn lemma_record_matches_of(ms: Seq<(Seq<char>, JVal)>, rv: RecordV)
    requires
        record_matches(ms, rv),
    ensures
        rv == record_of(ms),
{
}

/// Whether two texts are one text.
fn chars_eq(a: &Vec<char>, b: &Vec<char>) -> (r: bool)
    ensures
        r == (a@ == b@),
{
    if a.len() != b.len() {
        proof {
            if a@ == b@ {
                assert(a@.len() == b@.len());
            }
        }
        return false;
    }
    let mut q: usize = 0;
    while q < a.len()
        invariant
            q <= a@.len(),
            a@.len() == b@.len(),
            forall|x: int| 0 <= x < q ==> a@[x] == b@[x],
        decreases a@.len() - q,
    {
        if a[q] != b[q] {
            return false;
        }
        q = q + 1;
    }
    proof {
        assert(a@ =~= b@);
    }
    true
}

/// Whether the key is one the record knows.
fn is_known_key(k: &Vec<char>) -> (r: bool)
    ensures
        r == known_key(k@),
{
    key_is_version(k) || key_is_vendor(k) || key_is_imaging_mode(k) || key_is_order_type(k)
        || key_is_product_sku(k) || key_is_base_ipr(k) || key_is_target_ipr(k)
        || key_is_umbra_satellite_name(k) || key_is_collects(k) || key_is_derived_products(k)
}

/// Whether some known field name occurs on two members.
#[verifier::loop_isolation(false)]
fn check_dup_known(members: &Vec<(Vec<char>, Json)>) -> (r: bool)
    ensures
        r == has_dup_known(view_members(members@)),
{
    proof {
        crate::json::lemma_view_members(members@);
    }
    let ghost vm = view_members(members@);
    let n = members.len();
    let mut x: usize = 0;
    while x < n
        invariant
            x <= n,
            forall|a: int, b: int|
                0 <= a < x && a < b < vm.len() ==> !((#[trigger] vm[a].0) == (#[trigger] vm[b].0)
                    && known_key(vm[a].0)),
        decreases n - x,
    {
        if is_known_key(&members[x].0) {
            let mut y = x + 1;
            while y < n
                invariant
                    x < y <= n,
                    known_key(vm[x as int].0),
                    forall|b: int|
                        x < b < y ==> !((#[trigger] vm[b].0) == vm[x as int].0),
                decreases n - y,
            {
                if chars_eq(&members[x].0, &members[y].0) {
                    proof {
                        assert(vm[x as int].0 == members@[x as int].0@);
                        assert(vm[y as int].0 == members@[y as int].0@);
                        assert(vm[x as int].0 == vm[y as int].0 && known_key(vm[x as int].0));
                        assert(has_dup_known(vm));
                    }
                    return true;
                }
                y = y + 1;
            }
        }
        x = x + 1;
    }
    proof {
        assert(!has_dup_known(vm));
    }
    false
}

} // verus!
