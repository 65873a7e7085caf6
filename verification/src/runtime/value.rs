//! Values stored in table rows, and the keys that indexes are built from.
use vstd::prelude::*;

verus! {

/// A value held in a row cell.
#[derive(Debug, Clone)]
pub enum IntersticeValue {
    Void,
    Bool(bool),
    U8(u8),
    U32(u32),
    U64(u64),
    I32(i32),
    I64(i64),
    String(String),
}

/// The mathematical content of a value.
pub enum ValueView {
    Void,
    Bool(bool),
    U8(u8),
    U32(u32),
    U64(u64),
    I32(i32),
    I64(i64),
    Str(Seq<char>),
}

impl View for IntersticeValue {
    type V = ValueView;

    open spec fn view(&self) -> ValueView {
        match self {
            IntersticeValue::Void => ValueView::Void,
            IntersticeValue::Bool(b) => ValueView::Bool(*b),
            IntersticeValue::U8(v) => ValueView::U8(*v),
            IntersticeValue::U32(v) => ValueView::U32(*v),
            IntersticeValue::U64(v) => ValueView::U64(*v),
            IntersticeValue::I32(v) => ValueView::I32(*v),
            IntersticeValue::I64(v) => ValueView::I64(*v),
            IntersticeValue::String(s) => ValueView::Str(s@),
        }
    }
}

/// A value that an index can be keyed by.
#[derive(Debug, Clone)]
pub enum IndexKey {
    Bool(bool),
    U8(u8),
    U32(u32),
    U64(u64),
    I32(i32),
    I64(i64),
    String(String),
}

/// The mathematical content of an index key.
pub enum KeyView {
    Bool(bool),
    U8(u8),
    U32(u32),
    U64(u64),
    I32(i32),
    I64(i64),
    Str(Seq<char>),
}

impl View for IndexKey {
    type V = KeyView;

    open spec fn view(&self) -> KeyView {
        match self {
            IndexKey::Bool(b) => KeyView::Bool(*b),
            IndexKey::U8(v) => KeyView::U8(*v),
            IndexKey::U32(v) => KeyView::U32(*v),
            IndexKey::U64(v) => KeyView::U64(*v),
            IndexKey::I32(v) => KeyView::I32(*v),
            IndexKey::I64(v) => KeyView::I64(*v),
            IndexKey::String(s) => KeyView::Str(s@),
        }
    }
}

/// The key a value converts to; `Void` has none.
pub open spec fn value_key(v: ValueView) -> Option<KeyView> {
    match v {
        ValueView::Void => None,
        ValueView::Bool(b) => Some(KeyView::Bool(b)),
        ValueView::U8(x) => Some(KeyView::U8(x)),
        ValueView::U32(x) => Some(KeyView::U32(x)),
        ValueView::U64(x) => Some(KeyView::U64(x)),
        ValueView::I32(x) => Some(KeyView::I32(x)),
        ValueView::I64(x) => Some(KeyView::I64(x)),
        ValueView::Str(s) => Some(KeyView::Str(s)),
    }
}

/// The value a key stands for.
pub open spec fn key_value(k: KeyView) -> ValueView {
    match k {
        KeyView::Bool(b) => ValueView::Bool(b),
        KeyView::U8(x) => ValueView::U8(x),
        KeyView::U32(x) => ValueView::U32(x),
        KeyView::U64(x) => ValueView::U64(x),
        KeyView::I32(x) => ValueView::I32(x),
        KeyView::I64(x) => ValueView::I64(x),
        KeyView::Str(s) => ValueView::Str(s),
    }
}

/// Position of a key's kind in the key order: keys of different kinds
/// compare by kind first.
pub open spec fn key_rank(k: KeyView) -> int {
    match k {
        KeyView::Bool(_) => 0,
        KeyView::U8(_) => 1,
        KeyView::U32(_) => 2,
        KeyView::U64(_) => 3,
        KeyView::I32(_) => 4,
        KeyView::I64(_) => 5,
        KeyView::Str(_) => 6,
    }
}

/// Lexicographic order on character sequences (by code point).
pub open spec fn chars_lt(a: Seq<char>, b: Seq<char>) -> bool
    decreases a.len(),
{
    if a.len() == 0 {
        b.len() > 0
    } else if b.len() == 0 {
        false
    } else if a[0] < b[0] {
        true
    } else if a[0] == b[0] {
        chars_lt(a.drop_first(), b.drop_first())
    } else {
        false
    }
}

/// Strict total order on keys.
pub open spec fn key_lt(a: KeyView, b: KeyView) -> bool {
    if key_rank(a) != key_rank(b) {
        key_rank(a) < key_rank(b)
    } else {
        match (a, b) {
            (KeyView::Bool(x), KeyView::Bool(y)) => !x && y,
            (KeyView::U8(x), KeyView::U8(y)) => x < y,
            (KeyView::U32(x), KeyView::U32(y)) => x < y,
            (KeyView::U64(x), KeyView::U64(y)) => x < y,
            (KeyView::I32(x), KeyView::I32(y)) => x < y,
            (KeyView::I64(x), KeyView::I64(y)) => x < y,
            (KeyView::Str(x), KeyView::Str(y)) => chars_lt(x, y),
            _ => false,
        }
    }
}

pub open spec fn key_le(a: KeyView, b: KeyView) -> bool {
    key_lt(a, b) || a == b
}

pub proof fn lemma_chars_lt_irreflexive(a: Seq<char>)
    ensures
        !chars_lt(a, a),
    decreases a.len(),
{
    if a.len() > 0 {
        lemma_chars_lt_irreflexive(a.drop_first());
    }
}

pub proof fn lemma_chars_lt_transitive(a: Seq<char>, b: Seq<char>, c: Seq<char>)
    requires
        chars_lt(a, b),
        chars_lt(b, c),
    ensures
        chars_lt(a, c),
    decreases a.len(),
{
    if a.len() > 0 && b.len() > 0 && c.len() > 0 {
        if a[0] == b[0] && b[0] == c[0] {
            lemma_chars_lt_transitive(a.drop_first(), b.drop_first(), c.drop_first());
        }
    }
}

pub proof fn lemma_chars_lt_total(a: Seq<char>, b: Seq<char>)
    ensures
        chars_lt(a, b) || chars_lt(b, a) || a == b,
    decreases a.len(),
{
    if a.len() > 0 && b.len() > 0 {
        if a[0] == b[0] {
            lemma_chars_lt_total(a.drop_first(), b.drop_first());
            if a.drop_first() == b.drop_first() {
                assert(a =~= seq![a[0]] + a.drop_first());
                assert(b =~= seq![b[0]] + b.drop_first());
            }
        } else {
            assert(a[0] != b[0]);
        }
    } else if a.len() == 0 && b.len() == 0 {
        assert(a =~= b);
    }
}

pub proof fn lemma_chars_lt_asymmetric(a: Seq<char>, b: Seq<char>)
    requires
        chars_lt(a, b),
    ensures
        !chars_lt(b, a),
{
    if chars_lt(b, a) {
        lemma_chars_lt_transitive(a, b, a);
        lemma_chars_lt_irreflexive(a);
    }
}

/// `key_lt` is irreflexive, transitive and total.
pub proof fn lemma_key_order(a: KeyView, b: KeyView, c: KeyView)
    ensures
        !key_lt(a, a),
        key_lt(a, b) && key_lt(b, c) ==> key_lt(a, c),
        key_lt(a, b) || key_lt(b, a) || a == b,
        key_lt(a, b) ==> !key_lt(b, a),
{
    if let KeyView::Str(x) = a {
        lemma_chars_lt_irreflexive(x);
    }
    if key_lt(a, b) && key_lt(b, c) {
        if let (KeyView::Str(x), KeyView::Str(y), KeyView::Str(z)) = (a, b, c) {
            lemma_chars_lt_transitive(x, y, z);
        }
    }
    if let (KeyView::Str(x), KeyView::Str(y)) = (a, b) {
        lemma_chars_lt_total(x, y);
        if chars_lt(x, y) {
            lemma_chars_lt_asymmetric(x, y);
        }
    }
}

/// Outcome of comparing two keys.
#[derive(Debug, Clone, Copy, PartialEq, Eq, Structural)]
pub enum KeyOrder {
    Less,
    Equal,
    Greater,
}

pub open spec fn key_order_of(a: KeyView, b: KeyView) -> KeyOrder {
    if key_lt(a, b) {
        KeyOrder::Less
    } else if a == b {
        KeyOrder::Equal
    } else {
        KeyOrder::Greater
    }
}

fn rank_of(k: &IndexKey) -> (r: u8)
    ensures
        r as int == key_rank(k@),
{
    match k {
        IndexKey::Bool(_) => 0,
        IndexKey::U8(_) => 1,
        IndexKey::U32(_) => 2,
        IndexKey::U64(_) => 3,
        IndexKey::I32(_) => 4,
        IndexKey::I64(_) => 5,
        IndexKey::String(_) => 6,
    }
}

/// Lexicographic comparison of two strings by code point.
pub fn compare_strings(a: &str, b: &str) -> (o: KeyOrder)
    ensures
        o == (if chars_lt(a@, b@) {
            KeyOrder::Less
        } else if a@ == b@ {
            KeyOrder::Equal
        } else {
            KeyOrder::Greater
        }),
{
    let la = a.unicode_len();
    let lb = b.unicode_len();
    let mut i: usize = 0;
    while i < la && i < lb
        invariant
            la == a@.len(),
            lb == b@.len(),
            i <= la,
            i <= lb,
            a@.subrange(0, i as int) == b@.subrange(0, i as int),
        decreases la - i,
    {
        let ca = a.get_char(i);
        let cb = b.get_char(i);
        if ca != cb {
            proof {
                lemma_chars_lt_prefix(a@, b@, i as int);
                lemma_chars_lt_total(a@, b@);
                if ca < cb {
                } else {
                    lemma_chars_lt_prefix(b@, a@, i as int);
                    assert(chars_lt(b@, a@));
                    lemma_chars_lt_asymmetric(b@, a@);
                }
            }
            if ca < cb {
                return KeyOrder::Less;
            } else {
                return KeyOrder::Greater;
            }
        }
        proof {
            assert(a@.subrange(0, i + 1) =~= a@.subrange(0, i as int).push(ca));
            assert(b@.subrange(0, i + 1) =~= b@.subrange(0, i as int).push(cb));
        }
        i = i + 1;
    }
    proof {
        lemma_chars_lt_prefix(a@, b@, i as int);
        lemma_chars_lt_prefix(b@, a@, i as int);
        lemma_chars_lt_total(a@, b@);
        if la == lb {
            assert(a@ =~= a@.subrange(0, i as int));
            assert(b@ =~= b@.subrange(0, i as int));
        }
    }
    if la < lb {
        KeyOrder::Less
    } else if la == lb {
        KeyOrder::Equal
    } else {
        KeyOrder::Greater
    }
}

/// Whether two texts are equal.
pub fn same_text(a: &str, b: &str) -> (r: bool)
    ensures
        r == (a@ == b@),
{
    proof {
        lemma_chars_lt_irreflexive(a@);
    }
    match compare_strings(a, b) {
        KeyOrder::Equal => true,
        _ => false,
    }
}

/// The character of a decimal digit.
pub open spec fn digit_char(d: int) -> char {
    if d == 0 {
        '0'
    } else if d == 1 {
        '1'
    } else if d == 2 {
        '2'
    } else if d == 3 {
        '3'
    } else if d == 4 {
        '4'
    } else if d == 5 {
        '5'
    } else if d == 6 {
        '6'
    } else if d == 7 {
        '7'
    } else if d == 8 {
        '8'
    } else {
        '9'
    }
}

/// The decimal text of `n`, without leading zeros.
pub open spec fn decimal(n: nat) -> Seq<char>
    decreases n,
{
    if n < 10 {
        seq![digit_char(n as int)]
    } else {
        decimal(n / 10).push(digit_char((n % 10) as int))
    }
}

fn digit_str(d: usize) -> (r: &'static str)
    requires
        d < 10,
    ensures
        r@ == seq![digit_char(d as int)],
{
    proof {
        reveal_strlit("0");
        reveal_strlit("1");
        reveal_strlit("2");
        reveal_strlit("3");
        reveal_strlit("4");
        reveal_strlit("5");
        reveal_strlit("6");
        reveal_strlit("7");
        reveal_strlit("8");
        reveal_strlit("9");
    }
    if d == 0 {
        "0"
    } else if d == 1 {
        "1"
    } else if d == 2 {
        "2"
    } else if d == 3 {
        "3"
    } else if d == 4 {
        "4"
    } else if d == 5 {
        "5"
    } else if d == 6 {
        "6"
    } else if d == 7 {
        "7"
    } else if d == 8 {
        "8"
    } else {
        "9"
    }
}

/// The decimal text of `n`.
pub fn decimal_string(n: usize) -> (r: String)
    ensures
        r@ == decimal(n as nat),
    decreases n,
{
    if n < 10 {
        digit_str(n).to_owned()
    } else {
        let mut s = decimal_string(n / 10);
        s.append(digit_str(n % 10));
        s
    }
}

/// Two sequences sharing their first `i` characters compare as their
/// remainders do.
pub proof fn lemma_chars_lt_prefix(a: Seq<char>, b: Seq<char>, i: int)
    requires
        0 <= i <= a.len(),
        i <= b.len(),
        a.subrange(0, i) == b.subrange(0, i),
    ensures
        chars_lt(a, b) == chars_lt(a.subrange(i, a.len() as int), b.subrange(i, b.len() as int)),
    decreases i,
{
    if i > 0 {
        assert(a[0] == a.subrange(0, i)[0]);
        assert(b[0] == b.subrange(0, i)[0]);
        assert(a.drop_first().subrange(0, i - 1) =~= a.subrange(0, i).drop_first());
        assert(b.drop_first().subrange(0, i - 1) =~= b.subrange(0, i).drop_first());
        lemma_chars_lt_prefix(a.drop_first(), b.drop_first(), i - 1);
        assert(a.drop_first().subrange(i - 1, a.len() - 1) =~= a.subrange(i, a.len() as int));
        assert(b.drop_first().subrange(i - 1, b.len() - 1) =~= b.subrange(i, b.len() as int));
    } else {
        assert(a.subrange(0, a.len() as int) =~= a);
        assert(b.subrange(0, b.len() as int) =~= b);
    }
}

impl IndexKey {
    /// Compare two keys in the key order.
    pub fn compare(&self, other: &IndexKey) -> (o: KeyOrder)
        ensures
            o == key_order_of(self@, other@),
    {
        proof {
            lemma_key_order(self@, other@, self@);
        }
        let ra = rank_of(self);
        let rb = rank_of(other);
        if ra < rb {
            return KeyOrder::Less;
        }
        if ra > rb {
            return KeyOrder::Greater;
        }
        match (self, other) {
            (IndexKey::Bool(x), IndexKey::Bool(y)) => {
                if !*x && *y {
                    KeyOrder::Less
                } else if *x == *y {
                    KeyOrder::Equal
                } else {
                    KeyOrder::Greater
                }
            },
            (IndexKey::U8(x), IndexKey::U8(y)) => {
                if *x < *y {
                    KeyOrder::Less
                } else if *x == *y {
                    KeyOrder::Equal
                } else {
                    KeyOrder::Greater
                }
            },
            (IndexKey::U32(x), IndexKey::U32(y)) => {
                if *x < *y {
                    KeyOrder::Less
                } else if *x == *y {
                    KeyOrder::Equal
                } else {
                    KeyOrder::Greater
                }
            },
            (IndexKey::U64(x), IndexKey::U64(y)) => {
                if *x < *y {
                    KeyOrder::Less
                } else if *x == *y {
                    KeyOrder::Equal
                } else {
                    KeyOrder::Greater
                }
            },
            (IndexKey::I32(x), IndexKey::I32(y)) => {
                if *x < *y {
                    KeyOrder::Less
                } else if *x == *y {
                    KeyOrder::Equal
                } else {
                    KeyOrder::Greater
                }
            },
            (IndexKey::I64(x), IndexKey::I64(y)) => {
                if *x < *y {
                    KeyOrder::Less
                } else if *x == *y {
                    KeyOrder::Equal
                } else {
                    KeyOrder::Greater
                }
            },
            (IndexKey::String(x), IndexKey::String(y)) => compare_strings(x.as_str(), y.as_str()),
            _ => KeyOrder::Greater,
        }
    }

    /// Whether two keys are equal.
    pub fn equals(&self, other: &IndexKey) -> (b: bool)
        ensures
            b == (self@ == other@),
    {
        proof {
            lemma_key_order(self@, other@, self@);
        }
        self.compare(other) == KeyOrder::Equal
    }

    /// A copy of the key.
    pub fn duplicate(&self) -> (k: IndexKey)
        ensures
            k@ == self@,
    {
        match self {
            IndexKey::Bool(b) => IndexKey::Bool(*b),
            IndexKey::U8(v) => IndexKey::U8(*v),
            IndexKey::U32(v) => IndexKey::U32(*v),
            IndexKey::U64(v) => IndexKey::U64(*v),
            IndexKey::I32(v) => IndexKey::I32(*v),
            IndexKey::I64(v) => IndexKey::I64(*v),
            IndexKey::String(s) => IndexKey::String(s.clone()),
        }
    }
}

impl IntersticeValue {
    /// The index key this value converts to, if it can be one.
    pub fn to_index_key(&self) -> (k: Option<IndexKey>)
        ensures
            k matches Some(kk) ==> value_key(self@) == Some(kk@),
            k is None <==> value_key(self@) is None,
    {
        match self {
            IntersticeValue::Void => None,
            IntersticeValue::Bool(b) => Some(IndexKey::Bool(*b)),
            IntersticeValue::U8(v) => Some(IndexKey::U8(*v)),
            IntersticeValue::U32(v) => Some(IndexKey::U32(*v)),
            IntersticeValue::U64(v) => Some(IndexKey::U64(*v)),
            IntersticeValue::I32(v) => Some(IndexKey::I32(*v)),
            IntersticeValue::I64(v) => Some(IndexKey::I64(*v)),
            IntersticeValue::String(s) => Some(IndexKey::String(s.clone())),
        }
    }

    /// A copy of the value.
    pub fn duplicate(&self) -> (v: IntersticeValue)
        ensures
            v@ == self@,
    {
        match self {
            IntersticeValue::Void => IntersticeValue::Void,
            IntersticeValue::Bool(b) => IntersticeValue::Bool(*b),
            IntersticeValue::U8(v) => IntersticeValue::U8(*v),
            IntersticeValue::U32(v) => IntersticeValue::U32(*v),
            IntersticeValue::U64(v) => IntersticeValue::U64(*v),
            IntersticeValue::I32(v) => IntersticeValue::I32(*v),
            IntersticeValue::I64(v) => IntersticeValue::I64(*v),
            IntersticeValue::String(s) => IntersticeValue::String(s.clone()),
        }
    }
}

impl IndexKey {
    /// The value this key stands for.
    pub fn to_value(&self) -> (v: IntersticeValue)
        ensures
            v@ == key_value(self@),
    {
        match self {
            IndexKey::Bool(b) => IntersticeValue::Bool(*b),
            IndexKey::U8(v) => IntersticeValue::U8(*v),
            IndexKey::U32(v) => IntersticeValue::U32(*v),
            IndexKey::U64(v) => IntersticeValue::U64(*v),
            IndexKey::I32(v) => IntersticeValue::I32(*v),
            IndexKey::I64(v) => IntersticeValue::I64(*v),
            IndexKey::String(s) => IntersticeValue::String(s.clone()),
        }
    }
}

/// A table row: its primary key and the values of its fields.
#[derive(Debug, Clone)]
pub struct Row {
    pub primary_key: IntersticeValue,
    pub entries: Vec<IntersticeValue>,
}

pub struct RowView {
    pub primary_key: ValueView,
    pub entries: Seq<ValueView>,
}

impl View for Row {
    type V = RowView;

    open spec fn view(&self) -> RowView {
        RowView {
            primary_key: self.primary_key@,
            entries: self.entries@.map_values(|v: IntersticeValue| v@),
        }
    }
}

impl Row {
    /// A copy of the row.
    pub fn duplicate(&self) -> (r: Row)
        ensures
            r@ == self@,
    {
        let mut entries: Vec<IntersticeValue> = Vec::new();
        let mut i: usize = 0;
        while i < self.entries.len()
            invariant
                i <= self.entries.len(),
                entries@.len() == i,
                forall|j: int| 0 <= j < i ==> entries@[j]@ == self.entries@[j]@,
            decreases self.entries.len() - i,
        {
            entries.push(self.entries[i].duplicate());
            i = i + 1;
        }
        let r = Row { primary_key: self.primary_key.duplicate(), entries };
        assert(r@.entries =~= self@.entries);
        r
    }
}

} // verus!
