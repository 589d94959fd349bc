//! The two scenes of the game and what each asks for when it is stepped.
//!
//! A scene never replaces itself and never touches the highscore store.
//! Stepping it yields a [`Step`]: the scene to go to next, if any, and the
//! highscore to write to the store, if any. Acting on both is up to the
//! driver.

use vstd::prelude::*;
use crate::actors::{Actor, Tower, TowerModel};
use crate::arith::{lemma_pow10_grows, pow10};
use crate::events::Event;
use crate::highscore::{decimal, push_decimal};
use crate::ui::{ButtonModel, Color, Rect, UiButton};

verus! {

/// A million score units make one point.
pub const UNITS_PER_POINT: u64 = 1_000_000;

/// A scene to go to.
#[derive(Clone, Copy, Debug, PartialEq, Eq)]
pub enum State {
    /// The menu; with the score of the game that just ended, if one did.
    Menu(Option<u64>),
    /// A new game.
    Game,
    /// The end of the program.
    Exit,
}

/// What stepping a scene yields.
#[derive(Clone, Copy, Debug, PartialEq, Eq)]
pub struct Step {
    /// The scene to go to, if the scene is to change.
    pub request: Option<State>,
    /// The highscore to write to the store, if one is to be written.
    pub persist: Option<u64>,
}

/// A screen of the game.
pub trait Scene {
    /// What must hold of a scene for it to be used.
    spec fn wf(&self) -> bool;

    /// Steps the scene by `dt` microseconds.
    fn update(&mut self, dt: u32) -> (step: Step)
        requires
            old(self).wf(),
        ensures
            final(self).wf(),
    ;

    /// Hands the scene one input event.
    fn events(&mut self, evt: Event)
        requires
            old(self).wf(),
        ensures
            final(self).wf(),
    ;
}

/// The larger of the stored highscore and the score of the game that just
/// ended, if one did.
pub open spec fn merged_highscore(stored: u64, candidate: Option<u64>) -> u64 {
    match candidate {
        Some(score) => if score >= stored { score } else { stored },
        None => stored,
    }
}

/// The menu, with a button to play and one to leave.
#[derive(Debug)]
pub struct MenuScene {
    pub play_button: UiButton,
    pub exit_button: UiButton,
    /// The highscore that the menu shows, in score units.
    pub highscore: u64,
}

/// What a menu is.
pub struct MenuModel {
    pub play_button: ButtonModel,
    pub exit_button: ButtonModel,
    pub highscore: u64,
}

impl View for MenuScene {
    type V = MenuModel;

    open spec fn view(&self) -> MenuModel {
        MenuModel {
            play_button: self.play_button@,
            exit_button: self.exit_button@,
            highscore: self.highscore,
        }
    }
}

impl MenuModel {
    /// One of the two buttons of the menu as it is when the menu opens:
    /// 400 by 70 pixels in the middle of the window, `top` pixels from its
    /// top, white with black letters and a black border.
    pub open spec fn button(top: i32, label: Seq<char>) -> ButtonModel {
        ButtonModel {
            rect: Rect { left: 300, top, width: 400, height: 70 },
            clicked: false,
            down: false,
            fill_color: Color { r: 255, g: 255, b: 255, a: 255 },
            border_color: Color { r: 0, g: 0, b: 0, a: 255 },
            border_thickness: 3,
            label,
            char_size: 42,
            text_color: Color { r: 0, g: 0, b: 0, a: 255 },
            shown_fill: Color { r: 255, g: 255, b: 255, a: 255 },
            shown_border: Color { r: 0, g: 0, b: 0, a: 255 },
        }
    }

    /// The menu as it opens, with `stored` read from the store and
    /// `candidate` the score of the game that just ended, if one did.
    pub open spec fn opened(stored: u64, candidate: Option<u64>) -> MenuModel {
        MenuModel {
            play_button: MenuModel::button(300, "PLAY"@),
            exit_button: MenuModel::button(420, "EXIT"@),
            highscore: merged_highscore(stored, candidate),
        }
    }

    /// What is to be written to the store when the menu opens: after a
    /// game, the highscore that the menu shows, whether it is new or not.
    pub open spec fn opening_persist(stored: u64, candidate: Option<u64>) -> Option<u64> {
        match candidate {
            Some(_) => Some(merged_highscore(stored, candidate)),
            None => None,
        }
    }

    /// What a step of the menu yields. A click on the play button asks
    /// for a game. Otherwise a click on the exit button asks for the end
    /// of the program, with the highscore written to the store on the way
    /// out.
    pub open spec fn step(self) -> Step {
        if self.play_button.clicked {
            Step { request: Some(State::Game), persist: None }
        } else if self.exit_button.clicked {
            Step { request: Some(State::Exit), persist: Some(self.highscore) }
        } else {
            Step { request: None, persist: None }
        }
    }

    /// The menu after a step. The click that was acted on is used up; a
    /// click on the exit button waits while one on the play button is
    /// acted on.
    pub open spec fn after_step(self) -> MenuModel {
        MenuModel {
            play_button: self.play_button.read(),
            exit_button: if self.play_button.clicked {
                self.exit_button
            } else {
                self.exit_button.read()
            },
            ..self
        }
    }

    /// The menu after the input event `evt`: both buttons get to see it.
    pub open spec fn after_event(self, evt: Event) -> MenuModel {
        MenuModel {
            play_button: self.play_button.after(evt),
            exit_button: self.exit_button.after(evt),
            ..self
        }
    }
}

/// One of the two buttons of the menu, `top` pixels from the top of the
/// window.
fn menu_button(top: i32, label: &str) -> (b: UiButton)
    ensures
        b@ == MenuModel::button(top, label@),
{
    UiButton::new()
        .bounds(300, top, 400, 70)
        .color(Color::white())
        .border_color(Color::black())
        .border_thickness(3)
        .text(label)
        .char_size(42)
        .text_color(Color::black())
        .pack()
}

impl MenuScene {
    /// Opens the menu. `stored` is the highscore read from the store and
    /// `pre_highscore` the score of the game that just ended, if one did.
    /// The menu shows the larger of the two. The second part of the result
    /// is the highscore to write back to the store, if one is to be
    /// written.
    pub fn new(stored: u64, pre_highscore: Option<u64>) -> (opened: (MenuScene, Option<u64>))
        ensures
            opened.0@ == MenuModel::opened(stored, pre_highscore),
            opened.1 == MenuModel::opening_persist(stored, pre_highscore),
    {
        let play_button = menu_button(300, "PLAY");
        let exit_button = menu_button(420, "EXIT");
        let mut highscore: u64 = stored;
        let mut persist: Option<u64> = None;
        match pre_highscore {
            Some(score) => {
                if score > highscore {
                    highscore = score;
                }
                persist = Some(highscore);
            },
            None => {},
        }
        (MenuScene { play_button, exit_button, highscore }, persist)
    }
}

impl MenuScene {
    /// The text that shows the highscore, as ASCII.
    pub fn highscore_text(&self) -> (text: Vec<u8>)
        ensures
            text@ == highscore_text(self.highscore),
    {
        let mut text: Vec<u8> = Vec::new();
        text.push(72);
        text.push(105);
        text.push(103);
        text.push(104);
        text.push(115);
        text.push(99);
        text.push(111);
        text.push(114);
        text.push(101);
        text.push(58);
        text.push(32);
        let ghost label = text@;
        push_decimal(&mut text, points(self.highscore));
        proof {
            assert(label =~= seq![72u8, 105u8, 103u8, 104u8, 115u8, 99u8, 111u8, 114u8, 101u8, 58u8, 32u8]);
        }
        text
    }
}

impl Scene for MenuScene {
    open spec fn wf(&self) -> bool {
        true
    }

    /// Looks at the buttons: see [`MenuModel::step`] and
    /// [`MenuModel::after_step`]. The time that has passed plays no part.
    fn update(&mut self, dt: u32) -> (step: Step)
        ensures
            step == old(self)@.step(),
            final(self)@ == old(self)@.after_step(),
    {
        if self.play_button.clicked() {
            return Step { request: Some(State::Game), persist: None };
        }
        if self.exit_button.clicked() {
            return Step { request: Some(State::Exit), persist: Some(self.highscore) };
        }
        Step { request: None, persist: None }
    }

    /// Both buttons get to see every event.
    fn events(&mut self, evt: Event)
        ensures
            final(self)@ == old(self)@.after_event(evt),
    {
        self.play_button.event(evt);
        self.exit_button.event(evt);
    }
}

/// Points a second that a single bullet would earn if more bullets did
/// not earn less each.
pub const SCORE_RATE: u64 = 4;

/// How many bullets it takes to halve what each of them earns.
pub const SCORE_EASING: u64 = 8;

/// The score gained in `dt` microseconds with `bullets` bullets in flight,
/// in score units, rounded down. Each bullet adds to the rate, but less
/// than the one before it: the rate is
/// `SCORE_RATE * bullets / (bullets / SCORE_EASING + 1)` points a second,
/// which is `SCORE_RATE * SCORE_EASING * bullets / (bullets + SCORE_EASING)`
/// and stays below `SCORE_RATE * SCORE_EASING`.
pub open spec fn score_gain(bullets: nat, dt: u32) -> nat {
    ((SCORE_RATE * SCORE_EASING * bullets * dt) / (bullets + SCORE_EASING) as int) as nat
}

/// The score after a gain; it stops at the largest score there is.
pub open spec fn score_after(score: u64, gain: nat) -> u64 {
    if score + gain > u64::MAX {
        u64::MAX
    } else {
        (score + gain) as u64
    }
}

/// The score as it is shown: in whole points, rounded to the nearest, and
/// to the even one of two that are equally near.
pub open spec fn shown_points(score: u64) -> nat {
    let whole = (score / UNITS_PER_POINT) as nat;
    let rest = score % UNITS_PER_POINT;
    if rest > 500_000 || (rest == 500_000 && whole % 2 == 1) {
        whole + 1
    } else {
        whole
    }
}

/// How many digits `n` has when written out.
pub open spec fn decimal_len(n: nat) -> nat
    decreases n,
{
    if n < 10 {
        1
    } else {
        1 + decimal_len(n / 10)
    }
}

/// The length of the text that shows `score`: the word `Score`, a colon
/// and a blank before the points.
pub open spec fn score_text_len(score: u64) -> nat {
    7 + decimal_len(shown_points(score))
}

/// The text that shows `score` during a game, as ASCII: `Score: ` and the
/// points.
pub open spec fn score_text(score: u64) -> Seq<u8> {
    seq![83u8, 99u8, 111u8, 114u8, 101u8, 58u8, 32u8] + decimal(shown_points(score))
}

/// The text that shows the highscore in the menu, as ASCII: `Highscore: `
/// and the points.
pub open spec fn highscore_text(highscore: u64) -> Seq<u8> {
    seq![72u8, 105u8, 103u8, 104u8, 115u8, 99u8, 111u8, 114u8, 101u8, 58u8, 32u8] + decimal(
        shown_points(highscore),
    )
}

/// A number written out has as many digits as it has.
pub proof fn lemma_decimal_len(n: nat)
    ensures
        decimal(n).len() == decimal_len(n),
    decreases n,
{
    if n >= 10 {
        lemma_decimal_len(n / 10);
    }
}

/// The text that shows a score is as long as [`score_text_len`] says.
pub proof fn lemma_score_text_len(score: u64)
    ensures
        score_text(score).len() == score_text_len(score),
{
    lemma_decimal_len(shown_points(score));
}

/// The score gained in `dt` microseconds with `bullets` bullets in flight.
pub fn gain(bullets: usize, dt: u32) -> (g: u64)
    ensures
        g == score_gain(bullets as nat, dt),
        g <= 32 * dt,
{
    let n: u128 = bullets as u128;
    let t: u128 = dt as u128;
    assert(32 * n * t <= 32 * 0xffff_ffff_ffff_ffff * 0xffff_ffff) by (nonlinear_arith)
        requires
            0 <= n <= 0xffff_ffff_ffff_ffff,
            0 <= t <= 0xffff_ffff,
    ;
    let rate: u128 = (SCORE_RATE * SCORE_EASING) as u128;
    let g: u128 = rate * n * t / (n + SCORE_EASING as u128);
    assert(g <= 32 * t) by (nonlinear_arith)
        requires
            g == (32 * n * t) / (n + 8),
            n >= 0,
            t >= 0,
    ;
    assert(SCORE_RATE * SCORE_EASING * bullets * dt == 32 * n * t) by (nonlinear_arith)
        requires
            SCORE_RATE == 4,
            SCORE_EASING == 8,
            n == bullets,
            t == dt,
    ;
    g as u64
}

/// The score in whole points, as it is shown.
pub fn points(score: u64) -> (p: u64)
    ensures
        p == shown_points(score),
{
    let whole: u64 = score / UNITS_PER_POINT;
    let rest: u64 = score % UNITS_PER_POINT;
    if rest > 500_000 || (rest == 500_000 && whole % 2 == 1) {
        whole + 1
    } else {
        whole
    }
}

/// How many digits `n` has when written out.
pub fn digits(n: u64) -> (d: usize)
    ensures
        d == decimal_len(n as nat),
        1 <= d <= 20,
{
    let mut rest: u64 = n;
    let mut d: usize = 1;
    assert(rest * pow10(0) <= n) by (nonlinear_arith)
        requires
            rest == n,
            pow10(0) == 1,
    ;
    while rest >= 10
        invariant
            1 <= d <= 20,
            d + decimal_len(rest as nat) == 1 + decimal_len(n as nat),
            rest * pow10((d - 1) as nat) <= n,
        decreases rest,
    {
        proof {
            assert(pow10(d as nat) == 10 * pow10((d - 1) as nat));
            assert((rest / 10) * pow10(d as nat) <= rest * pow10((d - 1) as nat)) by (nonlinear_arith)
                requires
                    pow10(d as nat) == 10 * pow10((d - 1) as nat),
                    pow10((d - 1) as nat) >= 0,
                    rest >= 0,
            ;
            lemma_pow10_limit(d as nat, (rest / 10) as nat);
        }
        rest = rest / 10;
        d = d + 1;
    }
    d
}

/// A number that still has something left after `k` digits were taken off
/// a 64-bit number has taken off fewer than twenty.
proof fn lemma_pow10_limit(k: nat, rest: nat)
    requires
        rest >= 1,
        rest * pow10(k) <= u64::MAX,
    ensures
        k < 20,
{
    if k >= 20 {
        lemma_pow10_grows(20, k);
        assert(pow10(20) == 100_000_000_000_000_000_000) by {
            reveal_with_fuel(pow10, 21);
        }
        assert(rest * pow10(k) >= pow10(k)) by (nonlinear_arith)
            requires
                rest >= 1,
                pow10(k) >= 0,
        ;
    }
}

/// A game in progress.
#[derive(Debug)]
pub struct GameScene {
    pub tower: Tower,
    /// The score so far, in score units.
    pub score: u64,
    /// The length of the score text when it was last laid out.
    pub score_len: usize,
    /// Whether the last step changed the length of the score text, so that
    /// it has to be laid out anew.
    pub layout_stale: bool,
}

/// What a game in progress is.
pub struct GameModel {
    pub tower: TowerModel,
    pub score: u64,
    pub score_len: usize,
    pub layout_stale: bool,
}

impl View for GameScene {
    type V = GameModel;

    open spec fn view(&self) -> GameModel {
        GameModel {
            tower: self.tower@,
            score: self.score,
            score_len: self.score_len,
            layout_stale: self.layout_stale,
        }
    }
}

impl GameModel {
    /// A game as it starts: a fresh tower, no score, no text laid out yet.
    pub open spec fn fresh(tower_radius: u64, bullet_radius: u64) -> GameModel {
        GameModel {
            tower: TowerModel::fresh(tower_radius, bullet_radius),
            score: 0,
            score_len: 0,
            layout_stale: false,
        }
    }

    /// The game one time step of `dt` microseconds later.
    ///
    /// The tower is stepped; then the score grows by what the bullets in
    /// flight earn in that time, whether or not the tower has just died.
    /// The score text is laid out anew only if it is not as long as it was
    /// when last laid out.
    pub open spec fn after_step(self, dt: u32) -> GameModel {
        let tower = self.tower.after_step(dt);
        let score = score_after(self.score, score_gain(tower.bullets.len(), dt));
        let score_len = score_text_len(score) as usize;
        GameModel { tower, score, score_len, layout_stale: score_len != self.score_len }
    }

    /// What the game asks for, stepped: once the tower is dead, the menu,
    /// with the score; until then nothing. The store is left alone.
    pub open spec fn step(self) -> Step {
        Step {
            request: if self.tower.dead {
                Some(State::Menu(Some(self.score)))
            } else {
                None
            },
            persist: None,
        }
    }

    /// The game after the input event `evt`: it goes to the tower.
    pub open spec fn after_event(self, evt: Event) -> GameModel {
        GameModel { tower: self.tower.after_event(evt), ..self }
    }
}

impl GameScene {
    /// Starts a game. `tower_radius` and `bullet_radius` are the radii of
    /// the hitboxes, in length units.
    pub fn new(tower_radius: u64, bullet_radius: u64) -> (g: GameScene)
        ensures
            g@ == GameModel::fresh(tower_radius, bullet_radius),
            g@.tower.valid(),
    {
        GameScene {
            tower: Tower::new(tower_radius, bullet_radius),
            score: 0,
            score_len: 0,
            layout_stale: false,
        }
    }
}

impl GameScene {
    /// The text that shows the score, as ASCII. After a step it is
    /// `score_len` bytes long.
    pub fn score_text(&self) -> (text: Vec<u8>)
        ensures
            text@ == score_text(self.score),
            text@.len() == score_text_len(self.score),
    {
        let mut text: Vec<u8> = Vec::new();
        text.push(83);
        text.push(99);
        text.push(111);
        text.push(114);
        text.push(101);
        text.push(58);
        text.push(32);
        let ghost label = text@;
        push_decimal(&mut text, points(self.score));
        proof {
            assert(label =~= seq![83u8, 99u8, 111u8, 114u8, 101u8, 58u8, 32u8]);
            lemma_score_text_len(self.score);
        }
        text
    }
}

impl Scene for GameScene {
    open spec fn wf(&self) -> bool {
        self@.tower.valid()
    }

    /// Steps the game: see [`GameModel::after_step`]. What it yields is
    /// what the game asks for once stepped: see [`GameModel::step`]. The
    /// score never goes down.
    fn update(&mut self, dt: u32) -> (step: Step)
        ensures
            final(self)@ == old(self)@.after_step(dt),
            step == final(self)@.step(),
            final(self)@.score >= old(self)@.score,
    {
        self.tower.update(dt);
        let earned: u64 = gain(self.tower.num_bullets(), dt);
        self.score = self.score.saturating_add(earned);
        let len: usize = 7 + digits(points(self.score));
        self.layout_stale = len != self.score_len;
        self.score_len = len;
        if self.tower.dead {
            return Step { request: Some(State::Menu(Some(self.score))), persist: None };
        }
        Step { request: None, persist: None }
    }

    /// Every event goes to the tower.
    fn events(&mut self, evt: Event)
        ensures
            final(self)@ == old(self)@.after_event(evt),
    {
        self.tower.events(evt);
    }
}

/// While a game is stepped its score never goes down, and the game asks
/// for the menu exactly when its tower is dead: from the step in which the
/// tower dies, and at every step after it.
pub proof fn lemma_score_grows_until_the_end(g: GameModel, dt: u32)
    ensures
        g.after_step(dt).score >= g.score,
        g.after_step(dt).step().request.is_some() <==> g.after_step(dt).tower.dead,
        g.tower.dead ==> g.after_step(dt).step().request == Some(
            State::Menu(Some(g.after_step(dt).score)),
        ),
        g.after_step(dt).step().persist.is_none(),
{
}

} // verus!
