use vstd::prelude::*;
use vstd::std_specs::iter::IteratorSpec;

verus! {

/// Digits of `n` in base ten, most significant first, with no leading zero.
pub open spec fn decimal(n: nat) -> Seq<char>
    decreases n,
{
    if n < 10 {
        seq![digit_char(n)]
    } else {
        decimal(n / 10).push(digit_char(n % 10))
    }
}

pub open spec fn digit_char(d: nat) -> char {
    if d == 0 { '0' } else if d == 1 { '1' } else if d == 2 { '2' } else if d == 3 { '3' }
    else if d == 4 { '4' } else if d == 5 { '5' } else if d == 6 { '6' } else if d == 7 { '7' }
    else if d == 8 { '8' } else { '9' }
}

/// Index of the first `sep` in `c` at or after `from`, or `c.len()` if none.
pub open spec fn first_index(c: Seq<char>, sep: char, from: int) -> int
    decreases c.len() - from,
{
    if from < 0 || from >= c.len() {
        c.len() as int
    } else if c[from] == sep {
        from
    } else {
        first_index(c, sep, from + 1)
    }
}

/// `c` cut at every `sep`: one piece more than there are separators.
pub open spec fn split_on(c: Seq<char>, sep: char) -> Seq<Seq<char>>
    decreases c.len(),
{
    if c.len() == 0 {
        seq![Seq::<char>::empty()]
    } else {
        let rest = split_on(c.drop_last(), sep);
        if c.last() == sep {
            rest.push(Seq::<char>::empty())
        } else {
            rest.update(rest.len() - 1, rest.last().push(c.last()))
        }
    }
}

/// Tags as written in a line: joined by commas, and none at all when the
/// field is empty.
pub open spec fn tags_of(field: Seq<char>) -> Seq<Seq<char>> {
    if field.len() == 0 {
        Seq::empty()
    } else {
        split_on(field, ',')
    }
}

pub open spec fn is_digit(ch: char) -> bool {
    '0' <= ch <= '9'
}

/// Value of a string of decimal digits.
pub open spec fn digits_value(c: Seq<char>) -> int
    decreases c.len(),
{
    if c.len() == 0 {
        0
    } else {
        digits_value(c.drop_last()) * 10 + (c.last() as int - '0' as int)
    }
}

/// `c` is a decimal number that fits in a `u64`.
pub open spec fn is_u64_text(c: Seq<char>) -> bool {
    &&& c.len() > 0
    &&& forall|i: int| 0 <= i < c.len() ==> is_digit(#[trigger] c[i])
    &&& digits_value(c) <= u64::MAX
}

pub open spec fn tab1(c: Seq<char>) -> int {
    first_index(c, '\t', 0)
}

pub open spec fn tab2(c: Seq<char>) -> int {
    first_index(c, '\t', tab1(c) + 1)
}

pub open spec fn tab3(c: Seq<char>) -> int {
    first_index(c, '\t', tab2(c) + 1)
}

/// A line holds the four fields: three tabs at least.
pub open spec fn has_all_fields(c: Seq<char>) -> bool {
    tab3(c) < c.len()
}

pub open spec fn id_field(c: Seq<char>) -> Seq<char> {
    c.subrange(0, tab1(c))
}

pub open spec fn timestamp_field(c: Seq<char>) -> Seq<char> {
    c.subrange(tab1(c) + 1, tab2(c))
}

pub open spec fn tags_field(c: Seq<char>) -> Seq<char> {
    c.subrange(tab2(c) + 1, tab3(c))
}

/// The payload: everything after the third tab, tabs included.
pub open spec fn data_field(c: Seq<char>) -> Seq<char> {
    c.subrange(tab3(c) + 1, c.len() as int)
}

/// Why a line could not be read as an event.
#[derive(Clone, Copy, Debug, PartialEq, Eq)]
pub enum DecodeError {
    /// Fewer than four tab-separated fields.
    MissingFields,
    /// The id or the timestamp is not a decimal number that fits in 64 bits.
    InvalidNumber,
}

/// A record of the log.
#[derive(Clone, Debug)]
pub struct Event {
    /// Assigned by the writer; 0 while unassigned.
    pub id: u64,
    /// Assigned by the writer, in milliseconds.
    pub timestamp: u64,
    pub tags: Vec<String>,
    pub data: String,
}

/// An event as a value: its id, timestamp, tags and data.
pub struct EventView {
    pub id: u64,
    pub timestamp: u64,
    pub tags: Seq<Seq<char>>,
    pub data: Seq<char>,
}

impl View for Event {
    type V = EventView;

    open spec fn view(&self) -> EventView {
        EventView {
            id: self.id,
            timestamp: self.timestamp,
            tags: views_of(self.tags@),
            data: self.data@,
        }
    }
}

/// The views of a list of strings.
pub open spec fn views_of(v: Seq<String>) -> Seq<Seq<char>> {
    v.map_values(|s: String| s@)
}

/// The characters of `s` in order.
pub(crate) fn chars_of(s: &str) -> (r: Vec<char>)
    ensures
        r@ == s@,
{
    broadcast use vstd::string::axiom_spec_iter, vstd::string::next_postcondition;

    let mut it = s.chars();
    let mut r: Vec<char> = Vec::new();
    loop
        invariant
            it.obeys_prophetic_iter_laws(),
            r@ + it.remaining() == s@,
            it.decrease() is Some,
        ensures
            r@ == s@,
        decreases it.decrease()->0,
    {
        match it.next() {
            Some(ch) => {
                r.push(ch);
                assert(r@ + it.remaining() =~= s@);
            },
            None => {
                assert(r@ =~= s@);
                break;
            },
        }
    }
    r
}

/// Relies on `String::from_iter`: a string of the given characters in order.
#[verifier::external_body]
pub(crate) fn string_of(c: Vec<char>) -> (r: String)
    ensures
        r@ == c@,
{
    String::from_iter(c)
}

/// The characters `c[start..end]`.
fn copy_range(c: &Vec<char>, start: usize, end: usize) -> (r: Vec<char>)
    requires
        start <= end <= c.len(),
    ensures
        r@ == c@.subrange(start as int, end as int),
{
    let mut r: Vec<char> = Vec::new();
    let mut i: usize = start;
    while i < end
        invariant
            start <= i <= end <= c.len(),
            r@ == c@.subrange(start as int, i as int),
        decreases end - i,
    {
        r.push(c[i]);
        i = i + 1;
        assert(r@ =~= c@.subrange(start as int, i as int));
    }
    r
}

/// First index of `sep` in `c` at or after `from`, or `c.len()`.
fn find_char(c: &Vec<char>, sep: char, from: usize) -> (r: usize)
    requires
        from <= c.len(),
    ensures
        r == first_index(c@, sep, from as int),
        from <= r <= c.len(),
        forall|i: int| from <= i < r ==> c@[i] != sep,
{
    let mut i: usize = from;
    while i < c.len() && c[i] != sep
        invariant
            from <= i <= c.len(),
            first_index(c@, sep, i as int) == first_index(c@, sep, from as int),
            forall|j: int| from <= j < i ==> c@[j] != sep,
        decreases c.len() - i,
    {
        i = i + 1;
    }
    i
}

/// Reads `c[start..end]` as a decimal `u64`.
fn parse_u64(c: &Vec<char>, start: usize, end: usize) -> (r: Option<u64>)
    requires
        start <= end <= c.len(),
    ensures
        r is Some <==> is_u64_text(c@.subrange(start as int, end as int)),
        r is Some ==> r->0 == digits_value(c@.subrange(start as int, end as int)),
{
    let ghost s = c@.subrange(start as int, end as int);
    if start == end {
        return None;
    }
    let mut acc: u64 = 0;
    let mut overflow = false;
    let mut i: usize = start;
    while i < end
        invariant
            start <= i <= end <= c.len(),
            s == c@.subrange(start as int, end as int),
            forall|j: int| start <= j < i ==> is_digit(#[trigger] c@[j]),
            !overflow ==> acc == digits_value(c@.subrange(start as int, i as int)),
            overflow ==> digits_value(c@.subrange(start as int, i as int)) > u64::MAX,
        decreases end - i,
    {
        let ch = c[i];
        if !('0' <= ch && ch <= '9') {
            assert(!is_digit(s[i - start]));
            return None;
        }
        let d = (ch as u32 - '0' as u32) as u64;
        let ghost prev = c@.subrange(start as int, i as int);
        assert(c@.subrange(start as int, i + 1).drop_last() =~= prev);
        if !overflow {
            if acc > (u64::MAX - d) / 10 {
                overflow = true;
                assert(digits_value(prev) * 10 + d > u64::MAX) by (nonlinear_arith)
                    requires
                        digits_value(prev) > (u64::MAX - d) / 10,
                        0 <= d <= 9,
                ;
            } else {
                assert(acc * 10 + d <= u64::MAX) by (nonlinear_arith)
                    requires
                        acc <= (u64::MAX - d) / 10,
                        0 <= d <= 9,
                ;
                acc = acc * 10 + d;
            }
        } else {
            assert(digits_value(prev) * 10 + d > u64::MAX) by (nonlinear_arith)
                requires
                    digits_value(prev) > u64::MAX,
                    0 <= d <= 9,
            ;
        }
        i = i + 1;
    }
    assert(c@.subrange(start as int, i as int) =~= s);
    if overflow {
        None
    } else {
        Some(acc)
    }
}

/// Splits `c[start..end]` at every comma, or gives no tag when it is empty.
fn split_tags(c: &Vec<char>, start: usize, end: usize) -> (r: Vec<String>)
    requires
        start <= end <= c.len(),
    ensures
        views_of(r@) == tags_of(c@.subrange(start as int, end as int)),
{
    let mut tags: Vec<String> = Vec::new();
    if start == end {
        assert(views_of(tags@) =~= Seq::<Seq<char>>::empty());
        return tags;
    }
    let mut cur: Vec<char> = Vec::new();
    let mut i: usize = start;
    assert(c@.subrange(start as int, start as int) =~= Seq::<char>::empty());
    assert(views_of(tags@).push(cur@) =~= seq![Seq::<char>::empty()]);
    while i < end
        invariant
            start <= i <= end <= c.len(),
            views_of(tags@).push(cur@) == split_on(c@.subrange(start as int, i as int), ','),
        decreases end - i,
    {
        let ch = c[i];
        let ghost prev = c@.subrange(start as int, i as int);
        let ghost next = c@.subrange(start as int, i + 1);
        assert(next.drop_last() =~= prev);
        assert(next.last() == ch);
        if ch == ',' {
            let piece = string_of(cur);
            tags.push(piece);
            cur = Vec::new();
            assert(views_of(tags@) =~= split_on(prev, ','));
            assert(views_of(tags@).push(cur@) =~= split_on(next, ','));
        } else {
            cur.push(ch);
            assert(views_of(tags@).push(cur@) =~= split_on(next, ','));
        }
        i = i + 1;
    }
    let piece = string_of(cur);
    tags.push(piece);
    assert(views_of(tags@) =~= split_on(c@.subrange(start as int, end as int), ','));
    tags
}

impl Event {
    /// A copy of this event.
    pub fn copy(&self) -> (r: Event)
        ensures
            r@ == self@,
    {
        let mut tags: Vec<String> = Vec::new();
        let mut i: usize = 0;
        while i < self.tags.len()
            invariant
                0 <= i <= self.tags@.len(),
                views_of(tags@) == views_of(self.tags@).subrange(0, i as int),
            decreases self.tags@.len() - i,
        {
            let t = self.tags[i].clone();
            assert(t@ == self.tags@[i as int]@);
            let ghost before = tags@;
            tags.push(t);
            assert(views_of(tags@) =~= views_of(before).push(t@));
            i = i + 1;
            assert(views_of(tags@) =~= views_of(self.tags@).subrange(0, i as int));
        }
        assert(views_of(self.tags@).subrange(0, i as int) =~= views_of(self.tags@));
        Event { id: self.id, timestamp: self.timestamp, tags, data: self.data.clone() }
    }

    /// An event not yet written: no id and no timestamp.
    pub fn new(data: String, tags: Vec<String>) -> (r: Event)
        ensures
            r.id == 0,
            r.timestamp == 0,
            r.data == data,
            r.tags == tags,
    {
        Event { id: 0, timestamp: 0, tags, data }
    }

    /// The same event with the id `id`.
    pub fn with_id(self, id: u64) -> (r: Event)
        ensures
            r.id == id,
            r.timestamp == self.timestamp,
            r.data == self.data,
            r.tags == self.tags,
    {
        Event { id, ..self }
    }

    /// The same event with the timestamp `timestamp`.
    pub fn with_timestamp(self, timestamp: u64) -> (r: Event)
        ensures
            r.id == self.id,
            r.timestamp == timestamp,
            r.data == self.data,
            r.tags == self.tags,
    {
        Event { timestamp, ..self }
    }

    /// Reads an event from the characters `c[0..end]` of one log line:
    /// `id`, `timestamp`, `tags` and `data`, separated by tabs.
    pub fn from_chars(c: &Vec<char>, end: usize) -> (r: Result<Event, DecodeError>)
        requires
            end <= c.len(),
        ensures
            ({
                let t = c@.subrange(0, end as int);
                &&& r is Ok <==> has_all_fields(t) && is_u64_text(id_field(t))
                    && is_u64_text(timestamp_field(t))
                &&& r == Err::<Event, DecodeError>(DecodeError::MissingFields) <==> !has_all_fields(t)
                &&& r is Ok ==> {
                    &&& r->Ok_0.id == digits_value(id_field(t))
                    &&& r->Ok_0.timestamp == digits_value(timestamp_field(t))
                    &&& views_of(r->Ok_0.tags@) == tags_of(tags_field(t))
                    &&& r->Ok_0.data@ == data_field(t)
                }
            }),
    {
        let t = copy_range(c, 0, end);
        let t1 = find_char(&t, '\t', 0);
        if t1 == t.len() {
            return Err(DecodeError::MissingFields);
        }
        let t2 = find_char(&t, '\t', t1 + 1);
        if t2 == t.len() {
            return Err(DecodeError::MissingFields);
        }
        let t3 = find_char(&t, '\t', t2 + 1);
        if t3 == t.len() {
            return Err(DecodeError::MissingFields);
        }
        let id = match parse_u64(&t, 0, t1) {
            Some(v) => v,
            None => return Err(DecodeError::InvalidNumber),
        };
        let timestamp = match parse_u64(&t, t1 + 1, t2) {
            Some(v) => v,
            None => return Err(DecodeError::InvalidNumber),
        };
        let tags = split_tags(&t, t2 + 1, t3);
        let data = string_of(copy_range(&t, t3 + 1, t.len()));
        Ok(Event { id, timestamp, tags, data })
    }

    /// Reads an event from one log line, without its line terminator.
    pub fn from_tab_separated_str(s: &str) -> (r: Result<Event, DecodeError>)
        ensures
            r is Ok <==> has_all_fields(s@) && is_u64_text(id_field(s@)) && is_u64_text(
                timestamp_field(s@),
            ),
            r == Err::<Event, DecodeError>(DecodeError::MissingFields) <==> !has_all_fields(s@),
            r is Ok ==> {
                &&& r->Ok_0.id == digits_value(id_field(s@))
                &&& r->Ok_0.timestamp == digits_value(timestamp_field(s@))
                &&& views_of(r->Ok_0.tags@) == tags_of(tags_field(s@))
                &&& r->Ok_0.data@ == data_field(s@)
            },
    {
        let c = chars_of(s);
        assert(c@.subrange(0, c@.len() as int) =~= s@);
        Event::from_chars(&c, c.len())
    }
}

/// Tags joined by commas.
pub open spec fn join_tags(tags: Seq<Seq<char>>) -> Seq<char>
    decreases tags.len(),
{
    if tags.len() == 0 {
        Seq::empty()
    } else if tags.len() == 1 {
        tags[0]
    } else {
        join_tags(tags.drop_last()) + seq![','] + tags.last()
    }
}

/// The line text of an event: id, timestamp, tags and data, separated by tabs.
pub open spec fn encoded(id: u64, timestamp: u64, tags: Seq<Seq<char>>, data: Seq<char>) -> Seq<char> {
    decimal(id as nat) + seq!['\t'] + decimal(timestamp as nat) + seq!['\t'] + join_tags(tags)
        + seq!['\t'] + data
}

fn digit(d: u64) -> (r: char)
    requires
        d < 10,
    ensures
        r == digit_char(d as nat),
{
    if d == 0 { '0' } else if d == 1 { '1' } else if d == 2 { '2' } else if d == 3 { '3' }
    else if d == 4 { '4' } else if d == 5 { '5' } else if d == 6 { '6' } else if d == 7 { '7' }
    else if d == 8 { '8' } else { '9' }
}

/// Appends the decimal digits of `n`.
pub(crate) fn push_decimal(out: &mut Vec<char>, n: u64)
    ensures
        final(out)@ == old(out)@ + decimal(n as nat),
    decreases n,
{
    if n >= 10 {
        push_decimal(out, n / 10);
    }
    out.push(digit(n % 10));
    assert(final(out)@ =~= old(out)@ + decimal(n as nat));
}

/// Appends the characters of `s`.
pub(crate) fn push_str(out: &mut Vec<char>, s: &String)
    ensures
        final(out)@ == old(out)@ + s@,
{
    let c = chars_of(s.as_str());
    let mut i: usize = 0;
    while i < c.len()
        invariant
            0 <= i <= c@.len(),
            c@ == s@,
            out@ == old(out)@ + c@.subrange(0, i as int),
        decreases c@.len() - i,
    {
        out.push(c[i]);
        i = i + 1;
        assert(out@ =~= old(out)@ + c@.subrange(0, i as int));
    }
    assert(c@.subrange(0, i as int) =~= s@);
}

impl Event {
    /// The line text of this event, without line terminator.
    pub fn to_tab_separated_string(&self) -> (r: String)
        ensures
            r@ == encoded(self.id, self.timestamp, views_of(self.tags@), self.data@),
    {
        let mut out: Vec<char> = Vec::new();
        push_decimal(&mut out, self.id);
        out.push('\t');
        push_decimal(&mut out, self.timestamp);
        out.push('\t');
        let ghost head = out@;
        let mut i: usize = 0;
        assert(views_of(self.tags@).subrange(0, 0) =~= Seq::<Seq<char>>::empty());
        assert(out@ =~= head + join_tags(views_of(self.tags@).subrange(0, 0)));
        while i < self.tags.len()
            invariant
                0 <= i <= self.tags@.len(),
                out@ == head + join_tags(views_of(self.tags@).subrange(0, i as int)),
            decreases self.tags@.len() - i,
        {
            let ghost t = views_of(self.tags@);
            assert(t.subrange(0, i + 1).drop_last() =~= t.subrange(0, i as int));
            if i > 0 {
                out.push(',');
            }
            push_str(&mut out, &self.tags[i]);
            i = i + 1;
            assert(out@ =~= head + join_tags(t.subrange(0, i as int)));
        }
        assert(views_of(self.tags@).subrange(0, i as int) =~= views_of(self.tags@));
        out.push('\t');
        push_str(&mut out, &self.data);
        assert(out@ =~= encoded(self.id, self.timestamp, views_of(self.tags@), self.data@));
        string_of(out)
    }
}

proof fn lemma_digit_char(d: nat)
    requires
        d < 10,
    ensures
        is_digit(digit_char(d)),
        digit_char(d) as int - '0' as int == d,
{
    if d == 0 {
    } else if d == 1 {
    } else if d == 2 {
    } else if d == 3 {
    } else if d == 4 {
    } else if d == 5 {
    } else if d == 6 {
    } else if d == 7 {
    } else if d == 8 {
    } else {
    }
}

proof fn lemma_decimal(n: nat)
    ensures
        decimal(n).len() > 0,
        forall|i: int| 0 <= i < decimal(n).len() ==> is_digit(#[trigger] decimal(n)[i]),
        digits_value(decimal(n)) == n,
    decreases n,
{
    if n >= 10 {
        lemma_decimal(n / 10);
        lemma_digit_char(n % 10);
        let d = decimal(n);
        assert(d.drop_last() =~= decimal(n / 10));
        assert(d.last() == digit_char(n % 10));
        assert(digits_value(d) == digits_value(decimal(n / 10)) * 10 + (d.last() as int - '0' as int));
        vstd::arithmetic::div_mod::lemma_fundamental_div_mod(n as int, 10);
        assert(digits_value(d) == (n / 10) * 10 + n % 10);
        assert forall|i: int| 0 <= i < d.len() implies is_digit(#[trigger] d[i]) by {
            if i < d.len() - 1 {
                assert(d[i] == decimal(n / 10)[i]);
            }
        }
    } else {
        lemma_digit_char(n);
        assert(decimal(n).drop_last() =~= Seq::<char>::empty());
        assert(digits_value(Seq::<char>::empty()) == 0);
        assert(decimal(n).last() == digit_char(n));
    }
}

proof fn lemma_first_index_at(c: Seq<char>, sep: char, from: int, k: int)
    requires
        0 <= from <= k < c.len(),
        c[k] == sep,
        forall|j: int| from <= j < k ==> c[j] != sep,
    ensures
        first_index(c, sep, from) == k,
    decreases k - from,
{
    if from < k {
        lemma_first_index_at(c, sep, from + 1, k);
    }
}

proof fn lemma_split_single(y: Seq<char>, sep: char)
    requires
        forall|j: int| 0 <= j < y.len() ==> y[j] != sep,
    ensures
        split_on(y, sep) == seq![y],
    decreases y.len(),
{
    if y.len() > 0 {
        lemma_split_single(y.drop_last(), sep);
        assert(y.drop_last().push(y.last()) =~= y);
        assert(y.last() != sep);
        assert(seq![y.drop_last()].update(0, y.drop_last().push(y.last())) =~= seq![y]);
    } else {
        assert(y =~= Seq::<char>::empty());
    }
}

proof fn lemma_split_join(x: Seq<char>, y: Seq<char>, sep: char)
    requires
        forall|j: int| 0 <= j < y.len() ==> y[j] != sep,
    ensures
        split_on(x + seq![sep] + y, sep) == split_on(x, sep).push(y),
    decreases y.len(),
{
    if y.len() == 0 {
        assert(x + seq![sep] + y =~= x.push(sep));
        assert((x.push(sep)).drop_last() =~= x);
        assert(y =~= Seq::<char>::empty());
    } else {
        let y0 = y.drop_last();
        lemma_split_join(x, y0, sep);
        let c = x + seq![sep] + y;
        assert(c.drop_last() =~= x + seq![sep] + y0);
        assert(c.last() == y.last());
        assert(y.last() != sep);
        assert(y0.push(y.last()) =~= y);
        assert(split_on(x, sep).push(y0).last() == y0);
        assert(split_on(x, sep).push(y0).update(split_on(x, sep).len() as int, y0.push(y.last()))
            =~= split_on(x, sep).push(y));
    }
}

proof fn lemma_tags_round_trip(tags: Seq<Seq<char>>)
    requires
        tags.len() >= 1,
        forall|i: int, j: int|
            0 <= i < tags.len() && 0 <= j < tags[i].len() ==> #[trigger] tags[i][j] != ',',
    ensures
        split_on(join_tags(tags), ',') == tags,
    decreases tags.len(),
{
    if tags.len() == 1 {
        lemma_split_single(tags[0], ',');
        assert(seq![tags[0]] =~= tags);
    } else {
        let t = tags.drop_last();
        assert forall|i: int, j: int| 0 <= i < t.len() && 0 <= j < t[i].len() implies #[trigger] t[i][j]
            != ',' by {
            assert(t[i] == tags[i]);
        }
        lemma_tags_round_trip(t);
        let last = tags.last();
        assert forall|j: int| 0 <= j < last.len() implies last[j] != ',' by {
            assert(tags[tags.len() - 1][j] != ',');
        }
        lemma_split_join(join_tags(t), last, ',');
        assert(t.push(last) =~= tags);
    }
}

proof fn lemma_join_no_tab(tags: Seq<Seq<char>>)
    requires
        forall|i: int, j: int|
            0 <= i < tags.len() && 0 <= j < tags[i].len() ==> #[trigger] tags[i][j] != '\t',
    ensures
        forall|j: int| 0 <= j < join_tags(tags).len() ==> #[trigger] join_tags(tags)[j] != '\t',
        tags.len() >= 2 ==> join_tags(tags).len() > 0,
    decreases tags.len(),
{
    if tags.len() >= 2 {
        let t = tags.drop_last();
        assert forall|i: int, j: int| 0 <= i < t.len() && 0 <= j < t[i].len() implies #[trigger] t[i][j]
            != '\t' by {
            assert(t[i] == tags[i]);
        }
        lemma_join_no_tab(t);
        let last = tags.last();
        let jt = join_tags(t);
        assert forall|j: int| 0 <= j < join_tags(tags).len() implies #[trigger] join_tags(tags)[j]
            != '\t' by {
            if j < jt.len() {
                assert(join_tags(tags)[j] == jt[j]);
            } else if j > jt.len() {
                assert(join_tags(tags)[j] == last[j - jt.len() - 1]);
                assert(tags[tags.len() - 1][j - jt.len() - 1] != '\t');
            }
        }
    } else if tags.len() == 1 {
        assert forall|j: int| 0 <= j < join_tags(tags).len() implies #[trigger] join_tags(tags)[j]
            != '\t' by {
            assert(tags[0][j] != '\t');
        }
    }
}

/// Reading back the line text of an event gives the event: its id, its
/// timestamp, its tags and its data. This holds for tags free of commas and
/// tabs, other than a single empty tag, which reads back as no tag.
pub proof fn lemma_round_trip(id: u64, timestamp: u64, tags: Seq<Seq<char>>, data: Seq<char>)
    requires
        forall|i: int, j: int|
            0 <= i < tags.len() && 0 <= j < tags[i].len() ==> #[trigger] tags[i][j] != ','
                && tags[i][j] != '\t',
        !(tags.len() == 1 && tags[0].len() == 0),
    ensures
        ({
            let c = encoded(id, timestamp, tags, data);
            &&& has_all_fields(c)
            &&& is_u64_text(id_field(c))
            &&& is_u64_text(timestamp_field(c))
            &&& digits_value(id_field(c)) == id
            &&& digits_value(timestamp_field(c)) == timestamp
            &&& tags_of(tags_field(c)) == tags
            &&& data_field(c) == data
        }),
{
    let d1 = decimal(id as nat);
    let d2 = decimal(timestamp as nat);
    let j = join_tags(tags);
    let c = encoded(id, timestamp, tags, data);
    lemma_decimal(id as nat);
    lemma_decimal(timestamp as nat);
    assert forall|a: int, b: int| 0 <= a < tags.len() && 0 <= b < tags[a].len() implies #[trigger] tags[a][b]
        != '\t' by {
        assert(tags[a][b] != ',' && tags[a][b] != '\t');
    }
    lemma_join_no_tab(tags);
    let first_tab = d1.len() as int;
    let second_tab = first_tab + 1 + d2.len();
    let third_tab = second_tab + 1 + j.len();
    assert forall|k: int| 0 <= k < first_tab implies c[k] != '\t' by {
        assert(c[k] == d1[k]);
        assert(is_digit(d1[k]));
    }
    assert(c[first_tab] == '\t');
    lemma_first_index_at(c, '\t', 0, first_tab);
    assert forall|k: int| first_tab + 1 <= k < second_tab implies c[k] != '\t' by {
        assert(c[k] == d2[k - first_tab - 1]);
        assert(is_digit(d2[k - first_tab - 1]));
    }
    assert(c[second_tab] == '\t');
    lemma_first_index_at(c, '\t', first_tab + 1, second_tab);
    assert forall|k: int| second_tab + 1 <= k < third_tab implies c[k] != '\t' by {
        assert(c[k] == j[k - second_tab - 1]);
    }
    assert(c[third_tab] == '\t');
    lemma_first_index_at(c, '\t', second_tab + 1, third_tab);
    assert(id_field(c) =~= d1);
    assert(timestamp_field(c) =~= d2);
    assert(tags_field(c) =~= j);
    assert(data_field(c) =~= data);
    if tags.len() == 0 {
        assert(tags_of(j) =~= tags);
    } else {
        assert forall|a: int, b: int| 0 <= a < tags.len() && 0 <= b < tags[a].len() implies #[trigger] tags[a][b]
            != ',' by {
            assert(tags[a][b] != ',' && tags[a][b] != '\t');
        }
        lemma_tags_round_trip(tags);
        if tags.len() == 1 {
            assert(j.len() > 0);
        }
    }
}

} // verus!
