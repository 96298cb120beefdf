use vstd::prelude::*;
use crate::elo::{
    Judgment, new_left_spec, new_right_spec, update_ratings, DEFAULT_K, DEFAULT_MIN_SCORE,
};
use crate::selector::{
    round_pool, select_pair, sorted_by_games, viable_of, viable_records, has_rec, SelectError,
};
use crate::store::{Record, Store};

verus! {

/// Session parameters: the Elo step size and the viability cutoff, both in
/// thousandths of an Elo point.
#[derive(Clone, Copy, PartialEq, Eq, Structural, Debug)]
pub struct Config {
    pub k: i64,
    pub min_score: i64,
}

impl Config {
    /// The defaults: K of 40 Elo and a cutoff of 1100 Elo.
    pub fn new_default() -> (c: Config)
        ensures
            c.k == DEFAULT_K,
            c.min_score == DEFAULT_MIN_SCORE,
    {
        Config { k: DEFAULT_K, min_score: DEFAULT_MIN_SCORE }
    }
}

/// A judgment token read at the prompt.
#[derive(Clone, Copy, PartialEq, Eq, Structural, Debug)]
pub enum Token {
    Left,
    Right,
    Draw,
    Quit,
    Invalid,
}

/// The token a trimmed input line stands for: "l" or "a" mean the left image
/// wins, "r" the right one, "d" a draw, "q" ends the session; anything else
/// is invalid.
pub open spec fn token_of(s: Seq<char>) -> Token {
    if s == "l"@ || s == "a"@ {
        Token::Left
    } else if s == "r"@ {
        Token::Right
    } else if s == "d"@ {
        Token::Draw
    } else if s == "q"@ {
        Token::Quit
    } else {
        Token::Invalid
    }
}

pub fn parse_token(s: &str) -> (t: Token)
    ensures
        t == token_of(s@),
{
    proof {
        reveal_strlit("l");
        reveal_strlit("a");
        reveal_strlit("r");
        reveal_strlit("d");
        reveal_strlit("q");
    }
    let n = s.unicode_len();
    if n != 1 {
        return Token::Invalid;
    }
    let c = s.get_char(0);
    if c == 'l' || c == 'a' {
        proof {
            if c == 'l' {
                assert(s@ =~= "l"@);
            } else {
                assert(s@ =~= "a"@);
            }
        }
        Token::Left
    } else if c == 'r' {
        proof {
            assert(s@ =~= "r"@);
        }
        Token::Right
    } else if c == 'd' {
        proof {
            assert(s@ =~= "d"@);
        }
        Token::Draw
    } else if c == 'q' {
        proof {
            assert(s@ =~= "q"@);
        }
        Token::Quit
    } else {
        Token::Invalid
    }
}

/// The judgment a decisive token stands for.
pub open spec fn judgment_of(t: Token) -> Judgment {
    match t {
        Token::Left => Judgment::LeftWins,
        Token::Right => Judgment::RightWins,
        _ => Judgment::Draw,
    }
}

/// A play count one comparison later; it sticks at the largest
/// representable count rather than wrap.
pub open spec fn bump_games(g: int) -> int {
    if g < u64::MAX {
        g + 1
    } else {
        g
    }
}

/// The rating table after judging the pair (a, b): both ratings move by the
/// Elo rule and both play counts grow by one.
pub open spec fn judged_map(
    m: Map<Seq<char>, (int, int)>,
    a: Seq<char>,
    b: Seq<char>,
    j: Judgment,
    k: int,
) -> Map<Seq<char>, (int, int)> {
    let r1 = m[a].0;
    let g1 = m[a].1;
    let r2 = m[b].0;
    let g2 = m[b].1;
    m.insert(a, (new_left_spec(r1, r2, g1 as nat, g2 as nat, j, k), bump_games(g1))).insert(
        b,
        (new_right_spec(r1, r2, g1 as nat, g2 as nat, j, k), bump_games(g2)),
    )
}

/// What a submitted token led to.
#[derive(Clone, Copy, PartialEq, Eq, Structural, Debug)]
pub enum StepOutcome {
    /// The pair was judged and rated; the loop selects again.
    Updated,
    /// The token was not understood; the same pair is prompted again.
    Reprompt,
    /// The user quit.
    Finished,
}

/// One interactive rating session: the table, the parameters, the random
/// source and, between selection and judgment, the pair on display.
pub struct Session {
    pub store: Store,
    pub config: Config,
    pub rng: rand::rngs::StdRng,
    pub current: Option<(String, String)>,
}

impl Session {
    pub open spec fn wf(self) -> bool {
        &&& self.store.wf()
        &&& (self.current matches Some(pair) ==> self.store.has_id(pair.0@)
            && self.store.has_id(pair.1@) && pair.0@ != pair.1@)
    }

    pub fn new(store: Store, config: Config, rng: rand::rngs::StdRng) -> (s: Session)
        requires
            store.wf(),
        ensures
            s.wf(),
            s.store == store,
            s.config == config,
            s.current is None,
    {
        Session { store, config, rng, current: None }
    }

    /// How many images are above the cutoff; reported once before the first
    /// round.
    pub fn viable_count(&self) -> (n: usize)
        ensures
            n == viable_of(self.store.rows(), self.config.min_score as int).len(),
    {
        let v = viable_records(&self.store, self.config.min_score);
        v.len()
    }

    /// Selects the next pair to display.  On success the session awaits a
    /// judgment for exactly that pair; on failure nothing changes.
    pub fn next_pair(&mut self) -> (r: Result<(String, String), SelectError>)
        requires
            old(self).wf(),
            old(self).current is None,
        ensures
            final(self).wf(),
            final(self).store == old(self).store,
            final(self).config == old(self).config,
            (match r {
                Ok(pair) => {
                    &&& final(self).current == Some(pair)
                    &&& pair.0@ != pair.1@
                    &&& has_rec(
                        viable_of(old(self).store.rows(), old(self).config.min_score as int),
                        pair.0@,
                    )
                    &&& has_rec(
                        viable_of(old(self).store.rows(), old(self).config.min_score as int),
                        pair.1@,
                    )
                    &&& viable_of(old(self).store.rows(), old(self).config.min_score as int).len()
                        >= 2
                    &&& (exists|sorted: Seq<Record>, draws: Seq<u64>|
                        #![trigger round_pool(sorted, draws)]
                        {
                            &&& sorted.to_multiset() == viable_of(
                                old(self).store.rows(),
                                old(self).config.min_score as int,
                            ).to_multiset()
                            &&& sorted_by_games(sorted)
                            &&& draws.len() == sorted.len()
                            &&& (forall|i: int| 0 <= i < draws.len() ==> (#[trigger] draws[i])
                                < 10)
                            &&& round_pool(sorted, draws).len() >= 2
                            &&& has_rec(round_pool(sorted, draws), pair.0@)
                            &&& has_rec(round_pool(sorted, draws), pair.1@)
                        })
                },
                Err(SelectError::NotEnoughViable { count }) => {
                    &&& final(self).current is None
                    &&& count == viable_of(
                        old(self).store.rows(),
                        old(self).config.min_score as int,
                    ).len()
                    &&& count < 2
                },
                Err(SelectError::NotEnoughEligible { count }) => {
                    &&& final(self).current is None
                    &&& count == 1
                    &&& viable_of(old(self).store.rows(), old(self).config.min_score as int).len()
                        >= 2
                    &&& (exists|sorted: Seq<Record>, draws: Seq<u64>|
                        #![trigger round_pool(sorted, draws)]
                        {
                            &&& sorted.to_multiset() == viable_of(
                                old(self).store.rows(),
                                old(self).config.min_score as int,
                            ).to_multiset()
                            &&& sorted_by_games(sorted)
                            &&& draws.len() == sorted.len()
                            &&& (forall|i: int| 0 <= i < draws.len() ==> (#[trigger] draws[i])
                                < 10)
                            &&& round_pool(sorted, draws).len() == count
                        })
                },
            }),
    {
        let r = select_pair(&self.store, self.config.min_score, &mut self.rng);
        match r {
            Ok(pair) => {
                proof {
                    crate::selector::lemma_viable_props(
                        self.store.rows(),
                        self.config.min_score as int,
                    );
                    let viable = viable_of(self.store.rows(), self.config.min_score as int);
                    let w1 = choose|i: int| 0 <= i < viable.len() && viable[i].id@ == pair.0@;
                    let w2 = choose|i: int| 0 <= i < viable.len() && viable[i].id@ == pair.1@;
                    let s1 = choose|j: int|
                        0 <= j < self.store.rows().len() && self.store.rows()[j] == viable[w1];
                    let s2 = choose|j: int|
                        0 <= j < self.store.rows().len() && self.store.rows()[j] == viable[w2];
                    assert(self.store.rows()[s1].id@ == pair.0@);
                    assert(self.store.rows()[s2].id@ == pair.1@);
                }
                let ida = pair.0.clone();
                let idb = pair.1.clone();
                self.current = Some((pair.0, pair.1));
                Ok((ida, idb))
            },
            Err(e) => Err(e),
        }
    }

    /// Applies a judgment token to the pair on display.  An invalid token
    /// changes nothing and asks for a new prompt; quitting clears the pair
    /// and ends the session; a decisive token rates the pair by the Elo rule
    /// and hands control back to selection.
    pub fn submit(&mut self, tok: Token) -> (o: StepOutcome)
        requires
            old(self).wf(),
            old(self).current is Some,
        ensures
            final(self).wf(),
            final(self).config == old(self).config,
            (match tok {
                Token::Invalid => *final(self) == *old(self) && o == StepOutcome::Reprompt,
                Token::Quit => final(self).current is None && final(self).store == old(
                    self,
                ).store && o == StepOutcome::Finished,
                _ => o == StepOutcome::Updated && final(self).current is None && (old(
                    self,
                ).current matches Some(pair) ==> final(self).store.as_map() == judged_map(
                    old(self).store.as_map(),
                    pair.0@,
                    pair.1@,
                    judgment_of(tok),
                    old(self).config.k as int,
                )),
            }),
    {
        match tok {
            Token::Invalid => StepOutcome::Reprompt,
            Token::Quit => {
                self.current = None;
                StepOutcome::Finished
            },
            _ => {
                let j = match tok {
                    Token::Left => Judgment::LeftWins,
                    Token::Right => Judgment::RightWins,
                    _ => Judgment::Draw,
                };
                let (a, b) = match &self.current {
                    Some(pair) => (pair.0.clone(), pair.1.clone()),
                    None => {
                        proof {
                            assert(false);
                        }
                        (String::new(), String::new())
                    },
                };
                let (ra, ga) = match self.store.get(&a) {
                    Some(v) => v,
                    None => {
                        proof {
                            assert(false);
                        }
                        (0, 0)
                    },
                };
                let (rb, gb) = match self.store.get(&b) {
                    Some(v) => v,
                    None => {
                        proof {
                            assert(false);
                        }
                        (0, 0)
                    },
                };
                proof {
                    assert(self.store.rows()[self.store.idx_of(a@)].valid());
                    assert(self.store.rows()[self.store.idx_of(b@)].valid());
                }
                let (na, nb) = update_ratings(ra, ga, rb, gb, j, self.config.k);
                let ga2 = if ga < u64::MAX {
                    ga + 1
                } else {
                    ga
                };
                let gb2 = if gb < u64::MAX {
                    gb + 1
                } else {
                    gb
                };
                self.store.put(a, na, ga2);
                self.store.put(b, nb, gb2);
                self.current = None;
                proof {
                    let m0 = old(self).store.as_map();
                    assert(final(self).store.as_map() =~= judged_map(
                        m0,
                        old(self).current.unwrap().0@,
                        old(self).current.unwrap().1@,
                        j,
                        old(self).config.k as int,
                    ));
                }
                StepOutcome::Updated
            },
        }
    }

    /// Hands the table back for persistence at the end of the session.
    pub fn finish(self) -> (r: Store)
        ensures
            r == self.store,
    {
        self.store
    }
}

} // verus!
