use vstd::prelude::*;

verus! {

/// The prime modulus of the base field (BabyBear).
pub const FIELD_P: u32 = 2013265921;

/// Number of generator words consumed to sample one base field element.
pub const WORDS_PER_ELEM: usize = 6;

/// The result of SHA-256 on a byte string.
pub uninterp spec fn sha256_of(data: Seq<u8>) -> Seq<u8>;

/// Relies on `sha2::Sha256::digest`: the SHA-256 digest of the bytes, which
/// is 32 bytes long and depends on the bytes alone.
#[verifier::external_body]
pub(crate) fn sha256(data: &Vec<u8>) -> (r: Vec<u8>)
    ensures
        r@ == sha256_of(data@),
        r@.len() == 32,
{
    <sha2::Sha256 as sha2::Digest>::digest(data.as_slice()).to_vec()
}

/// The little-endian word made of the four bytes of `s` starting at `i`.
pub open spec fn le_word(s: Seq<u8>, i: int) -> int {
    s[i] as int + s[i + 1] as int * 256 + s[i + 2] as int * 65536 + s[i + 3] as int * 16777216
}

/// The eight little-endian words of a 32-byte digest.
pub open spec fn digest_words(d: Seq<u8>) -> Seq<u32> {
    Seq::new(8, |i: int| le_word(d, 4 * i) as u32)
}

/// The four little-endian bytes of a word.
pub open spec fn le_bytes(x: u32) -> Seq<u8> {
    seq![(x % 256) as u8, ((x / 256) % 256) as u8, ((x / 65536) % 256) as u8, (x / 16777216) as u8]
}

/// The little-endian bytes of a sequence of words.
pub open spec fn word_bytes(w: Seq<u32>) -> Seq<u8>
    decreases w.len(),
{
    if w.len() == 0 {
        Seq::empty()
    } else {
        word_bytes(w.drop_last()) + le_bytes(w.last())
    }
}

/// The generator pool once `digest` has been mixed into `pool`.
pub open spec fn mixed_pool(pool: Seq<u8>, digest: Seq<u8>) -> Seq<u8> {
    sha256_of(pool + digest)
}

/// The generator pool after `k` draws starting from `pool`.
pub open spec fn pool_after(pool: Seq<u8>, k: nat) -> Seq<u8>
    decreases k,
{
    if k == 0 { pool } else { sha256_of(pool_after(pool, (k - 1) as nat)) }
}

/// The value of draw number `k` (counting from zero) starting from `pool`.
pub open spec fn draw_value(pool: Seq<u8>, k: nat) -> u32 {
    le_word(pool_after(pool, k + 1), 0) as u32
}

/// The field element accumulated from the first `k` draws starting from `pool`.
pub open spec fn elem_acc(pool: Seq<u8>, k: nat) -> int
    decreases k,
{
    if k == 0 {
        0
    } else {
        (elem_acc(pool, (k - 1) as nat) * 0x1_0000_0000 + draw_value(pool, (k - 1) as nat) as int)
            % FIELD_P as int
    }
}

/// The base field element sampled from `pool`.
pub open spec fn sampled_elem(pool: Seq<u8>) -> u32 {
    elem_acc(pool, WORDS_PER_ELEM as nat) as u32
}

/// The extension field element of `ext` components sampled from `pool`.
pub open spec fn sampled_ext(pool: Seq<u8>, ext: nat) -> Seq<u32> {
    Seq::new(ext, |j: int| sampled_elem(pool_after(pool, (j * WORDS_PER_ELEM) as nat)))
}

/// One step recorded by the transcript.
#[derive(Clone, Copy, Debug, PartialEq, Eq, Structural)]
pub enum IopEvent {
    /// Words appended to the proof, without touching the generator.
    Write(usize),
    /// A digest appended to the proof and mixed into the generator.
    Commit,
    /// One word taken from the generator.
    Draw,
}

/// The events of `k` draws.
pub open spec fn draws(k: nat) -> Seq<IopEvent> {
    Seq::new(k, |i: int| IopEvent::Draw)
}

/// An append-only proof transcript whose random generator is derived from
/// the digests committed so far.
pub struct WriteIop {
    words: Vec<u32>,
    pool: Vec<u8>,
    events: Vec<IopEvent>,
}

impl WriteIop {
    pub closed spec fn words_view(&self) -> Seq<u32> {
        self.words@
    }

    pub closed spec fn pool_view(&self) -> Seq<u8> {
        self.pool@
    }

    pub closed spec fn event_view(&self) -> Seq<IopEvent> {
        self.events@
    }

    pub open spec fn wf(&self) -> bool {
        self.pool_view().len() == 32
    }

    /// An empty transcript whose generator starts from the digest of `seed`.
    pub fn new(seed: &Vec<u8>) -> (r: WriteIop)
        ensures
            r.wf(),
            r.words_view() == Seq::<u32>::empty(),
            r.event_view() == Seq::<IopEvent>::empty(),
            r.pool_view() == sha256_of(seed@),
    {
        WriteIop { words: Vec::new(), pool: sha256(seed), events: Vec::new() }
    }

    /// The words appended so far.
    pub fn proof_words(&self) -> (r: &Vec<u32>)
        ensures
            r@ == self.words_view(),
    {
        &self.words
    }

    /// The events recorded so far.
    pub fn events(&self) -> (r: &Vec<IopEvent>)
        ensures
            r@ == self.event_view(),
    {
        &self.events
    }

    /// Appends words to the proof.
    pub fn write_words(&mut self, words: &Vec<u32>)
        ensures
            final(self).words_view() == old(self).words_view() + words@,
            final(self).pool_view() == old(self).pool_view(),
            final(self).event_view() == old(self).event_view().push(IopEvent::Write(words.len())),
    {
        let mut i: usize = 0;
        while i < words.len()
            invariant
                i <= words.len(),
                self.words@ == old(self).words@ + words@.subrange(0, i as int),
                self.pool@ == old(self).pool@,
                self.events@ == old(self).events@,
            decreases words.len() - i,
        {
            self.words.push(words[i]);
            i = i + 1;
            assert(words@.subrange(0, i as int) == words@.subrange(0, i - 1).push(words@[i - 1]));
        }
        assert(words@.subrange(0, words.len() as int) == words@);
        self.events.push(IopEvent::Write(words.len()));
    }

    /// Appends a 32-byte digest to the proof and mixes it into the generator.
    pub fn commit(&mut self, digest: &Vec<u8>)
        requires
            old(self).wf(),
            digest@.len() == 32,
        ensures
            final(self).wf(),
            final(self).words_view() == old(self).words_view() + digest_words(digest@),
            final(self).pool_view() == mixed_pool(old(self).pool_view(), digest@),
            final(self).event_view() == old(self).event_view().push(IopEvent::Commit),
    {
        let mut data: Vec<u8> = self.pool.clone();
        let mut i: usize = 0;
        while i < 32
            invariant
                i <= 32,
                digest@.len() == 32,
                data@ == self.pool@ + digest@.subrange(0, i as int),
            decreases 32 - i,
        {
            data.push(digest[i]);
            i = i + 1;
            assert(digest@.subrange(0, i as int) == digest@.subrange(0, i - 1).push(digest@[i - 1]));
        }
        assert(digest@.subrange(0, 32) == digest@);
        let dw = digest_to_words(digest);
        let mut k: usize = 0;
        while k < 8
            invariant
                k <= 8,
                dw@ == digest_words(digest@),
                self.words@ == old(self).words@ + dw@.subrange(0, k as int),
                self.pool@ == old(self).pool@,
                self.events@ == old(self).events@,
            decreases 8 - k,
        {
            self.words.push(dw[k]);
            k = k + 1;
            assert(dw@.subrange(0, k as int) == dw@.subrange(0, k - 1).push(dw@[k - 1]));
        }
        assert(dw@.subrange(0, 8) == dw@);
        self.pool = sha256(&data);
        self.events.push(IopEvent::Commit);
    }

    /// Takes the next word from the generator.
    pub fn next_u32(&mut self) -> (r: u32)
        requires
            old(self).wf(),
        ensures
            final(self).wf(),
            r == draw_value(old(self).pool_view(), 0),
            final(self).pool_view() == pool_after(old(self).pool_view(), 1),
            final(self).words_view() == old(self).words_view(),
            final(self).event_view() == old(self).event_view().push(IopEvent::Draw),
    {
        let next = sha256(&self.pool);
        let r = le_word_at(&next, 0);
        self.pool = next;
        self.events.push(IopEvent::Draw);
        proof {
            reveal_with_fuel(pool_after, 2);
        }
        r
    }

    /// Samples a base field element from the generator: six words, each
    /// shifted in and reduced modulo the field prime.
    pub fn random_elem(&mut self) -> (r: u32)
        requires
            old(self).wf(),
        ensures
            final(self).wf(),
            r == sampled_elem(old(self).pool_view()),
            r < FIELD_P,
            final(self).pool_view() == pool_after(old(self).pool_view(), WORDS_PER_ELEM as nat),
            final(self).words_view() == old(self).words_view(),
            final(self).event_view() == old(self).event_view() + draws(WORDS_PER_ELEM as nat),
    {
        let ghost start = self.pool@;
        let mut val: u64 = 0;
        let mut i: usize = 0;
        while i < WORDS_PER_ELEM
            invariant
                i <= WORDS_PER_ELEM,
                self.wf(),
                val == elem_acc(start, i as nat),
                val < FIELD_P,
                self.pool@ == pool_after(start, i as nat),
                self.words@ == old(self).words@,
                self.events@ == old(self).events@ + draws(i as nat),
            decreases WORDS_PER_ELEM - i,
        {
            let w = self.next_u32();
            proof {
                lemma_draw_shift(start, i as nat);
                assert(val * 0x1_0000_0000 + w <= (FIELD_P - 1) * 0x1_0000_0000 + 0xffff_ffff)
                    by (nonlinear_arith)
                    requires val < FIELD_P, w <= 0xffff_ffffu32;
            }
            val = (val * 0x1_0000_0000 + w as u64) % (FIELD_P as u64);
            i = i + 1;
            assert(draws(i as nat) == draws((i - 1) as nat).push(IopEvent::Draw));
        }
        val as u32
    }

    /// Samples an extension field element of `ext_size` base components.
    pub fn random_ext(&mut self, ext_size: usize) -> (r: Vec<u32>)
        requires
            old(self).wf(),
            ext_size * WORDS_PER_ELEM <= usize::MAX,
        ensures
            final(self).wf(),
            r@ == sampled_ext(old(self).pool_view(), ext_size as nat),
            final(self).pool_view()
                == pool_after(old(self).pool_view(), (ext_size * WORDS_PER_ELEM) as nat),
            final(self).words_view() == old(self).words_view(),
            final(self).event_view()
                == old(self).event_view() + draws((ext_size * WORDS_PER_ELEM) as nat),
    {
        let ghost start = self.pool@;
        let mut r: Vec<u32> = Vec::new();
        let mut j: usize = 0;
        while j < ext_size
            invariant
                j <= ext_size,
                ext_size * WORDS_PER_ELEM <= usize::MAX,
                self.wf(),
                r@ == sampled_ext(start, ext_size as nat).subrange(0, j as int),
                self.pool@ == pool_after(start, (j * WORDS_PER_ELEM) as nat),
                self.words@ == old(self).words@,
                self.events@ == old(self).events@ + draws((j * WORDS_PER_ELEM) as nat),
            decreases ext_size - j,
        {
            let e = self.random_elem();
            r.push(e);
            proof {
                lemma_pool_after_add(start, (j * WORDS_PER_ELEM) as nat, WORDS_PER_ELEM as nat);
                assert(draws((j * WORDS_PER_ELEM) as nat) + draws(WORDS_PER_ELEM as nat)
                    == draws(((j + 1) * WORDS_PER_ELEM) as nat));
            }
            j = j + 1;
            assert(r@ == sampled_ext(start, ext_size as nat).subrange(0, j as int));
        }
        assert(sampled_ext(start, ext_size as nat).subrange(0, ext_size as int)
            == sampled_ext(start, ext_size as nat));
        r
    }
}

/// The eight little-endian words of a 32-byte digest.
pub fn digest_to_words(digest: &Vec<u8>) -> (r: Vec<u32>)
    requires
        digest@.len() == 32,
    ensures
        r@ == digest_words(digest@),
{
    let mut r: Vec<u32> = Vec::new();
    let mut k: usize = 0;
    while k < 8
        invariant
            k <= 8,
            digest@.len() == 32,
            r@ == digest_words(digest@).subrange(0, k as int),
        decreases 8 - k,
    {
        let w = le_word_at(digest, 4 * k);
        r.push(w);
        k = k + 1;
        assert(digest_words(digest@).subrange(0, k as int)
            == digest_words(digest@).subrange(0, k - 1).push(digest_words(digest@)[k - 1]));
    }
    assert(digest_words(digest@).subrange(0, 8) == digest_words(digest@));
    r
}

/// The bytes of `a` followed by those of `b`.
pub(crate) fn concat_bytes(a: &Vec<u8>, b: &Vec<u8>) -> (r: Vec<u8>)
    ensures
        r@ == a@ + b@,
{
    let mut r = a.clone();
    let mut i: usize = 0;
    while i < b.len()
        invariant
            i <= b.len(),
            r@ == a@ + b@.subrange(0, i as int),
        decreases b.len() - i,
    {
        r.push(b[i]);
        i = i + 1;
        assert(b@.subrange(0, i as int) == b@.subrange(0, i - 1).push(b@[i - 1]));
    }
    assert(b@.subrange(0, b.len() as int) == b@);
    r
}

/// The little-endian word of `s` at byte offset `i`.
fn le_word_at(s: &Vec<u8>, i: usize) -> (r: u32)
    requires
        i + 4 <= s.len(),
    ensures
        r as int == le_word(s@, i as int),
{
    let b0 = s[i] as u32;
    let b1 = s[i + 1] as u32;
    let b2 = s[i + 2] as u32;
    let b3 = s[i + 3] as u32;
    assert(b0 < 256 && b1 < 256 && b2 < 256 && b3 < 256);
    b0 + b1 * 256 + b2 * 65536 + b3 * 16777216
}

/// Draw `k` after `k` earlier draws is the first draw of the advanced pool.
pub proof fn lemma_draw_shift(pool: Seq<u8>, k: nat)
    ensures
        draw_value(pool, k) == draw_value(pool_after(pool, k), 0),
        pool_after(pool, k + 1) == pool_after(pool_after(pool, k), 1),
{
    lemma_pool_after_add(pool, k, 1);
}

/// `a + b` draws advance the pool as `a` draws followed by `b` more.
pub proof fn lemma_pool_after_add(pool: Seq<u8>, a: nat, b: nat)
    ensures
        pool_after(pool, a + b) == pool_after(pool_after(pool, a), b),
    decreases b,
{
    if b > 0 {
        lemma_pool_after_add(pool, a, (b - 1) as nat);
    }
}

/// The SHA-256 digest of the little-endian bytes of `words`.
pub fn hash_words(words: &Vec<u32>) -> (r: Vec<u8>)
    ensures
        r@ == sha256_of(word_bytes(words@)),
        r@.len() == 32,
{
    let mut bytes: Vec<u8> = Vec::new();
    let mut i: usize = 0;
    while i < words.len()
        invariant
            i <= words.len(),
            bytes@ == word_bytes(words@.subrange(0, i as int)),
        decreases words.len() - i,
    {
        let w = words[i];
        bytes.push((w % 256) as u8);
        bytes.push(((w / 256) % 256) as u8);
        bytes.push(((w / 65536) % 256) as u8);
        bytes.push((w / 16777216) as u8);
        assert(words@.subrange(0, i + 1).drop_last() == words@.subrange(0, i as int));
        i = i + 1;
        assert(bytes@ == word_bytes(words@.subrange(0, i as int)));
    }
    assert(words@.subrange(0, words.len() as int) == words@);
    sha256(&bytes)
}

} // verus!
