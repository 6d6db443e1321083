//! The power table behind the primality of `2^61 - 1`.
use vstd::prelude::*;
use vstd::arithmetic::div_mod::*;
use vstd::arithmetic::mul::*;

verus! {

/// The Mersenne prime `2^61 - 1`.
pub open spec fn modulus() -> int {
    2305843009213693951
}

/// `37^k` modulo `2^61 - 1`.
#[verifier::opaque]
pub open spec fn generator_power(k: nat) -> int
    decreases k,
{
    if k == 0 {
        1
    } else {
        (37 * generator_power((k - 1) as nat)) % modulus()
    }
}

/// Exponents add up.
pub proof fn lemma_generator_power_adds(i: nat, j: nat)
    ensures
        generator_power(i + j) == (generator_power(i) * generator_power(j)) % modulus(),
        0 <= generator_power(i) < modulus(),
    decreases i,
{
    reveal(generator_power);
    if i == 0 {
        lemma_generator_power_range(j);
        lemma_small_mod(generator_power(j) as nat, modulus() as nat);
    } else {
        let m = modulus();
        let a = generator_power((i - 1) as nat);
        let b = generator_power(j);
        lemma_generator_power_adds((i - 1) as nat, j);
        assert((i + j - 1) as nat == (i - 1) as nat + j);
        assert(generator_power(i + j) == (37 * ((a * b) % m)) % m);
        lemma_mul_mod_noop_right(37, a * b, m);
        lemma_mul_is_associative(37, a, b);
        lemma_mul_mod_noop_left(37 * a, b, m);
    }
}

proof fn lemma_generator_power_range(k: nat)
    ensures
        0 <= generator_power(k) < modulus(),
{
    reveal(generator_power);
}

proof fn lemma_generator_power_one()
    ensures
        generator_power(1) == 37,
{
    reveal(generator_power);
    reveal_with_fuel(generator_power, 2);
}

/// One step of the table: `v * w` reduced with its quotient at hand.
proof fn lemma_multiply(i: nat, v: int, j: nat, w: int, quotient: int, result: int)
    requires
        generator_power(i) == v,
        generator_power(j) == w,
        v * w == quotient * 2305843009213693951 + result,
        0 <= result < 2305843009213693951,
    ensures
        generator_power(i + j) == result,
{
    lemma_generator_power_adds(i, j);
    lemma_fundamental_div_mod_converse(v * w, modulus(), quotient, result);
}

proof fn lemma_power_chain_0()
    requires
        generator_power(1) == 37,
    ensures
        generator_power(15) == 616232432238528334,
{
    lemma_multiply(1, 37, 1, 37, 0, 1369);
    lemma_multiply(2, 1369, 1, 37, 0, 50653);
    lemma_multiply(3, 50653, 3, 50653, 0, 2565726409);
    lemma_multiply(6, 2565726409, 1, 37, 0, 94931877133);
    lemma_multiply(7, 94931877133, 7, 94931877133, 3908, 826815987892339181);
    lemma_multiply(14, 826815987892339181, 1, 37, 13, 616232432238528334);
}

proof fn lemma_power_chain_1()
    requires
        generator_power(15) == 616232432238528334,
    ensures
        generator_power(76784648991465) == 766800931428310829,
{
    lemma_multiply(15, 616232432238528334, 15, 616232432238528334, 164687018598073081, 402778895455182525);
    lemma_multiply(30, 402778895455182525, 30, 402778895455182525, 70356411072156436, 2127665702166456989);
    lemma_multiply(60, 2127665702166456989, 60, 2127665702166456989, 1963256527910459498, 1018013138833849523);
    lemma_multiply(120, 1018013138833849523, 15, 616232432238528334, 272062195946412615, 979795134552292817);
    lemma_multiply(135, 979795134552292817, 135, 979795134552292817, 416332986181791591, 1633379543370429448);
    lemma_multiply(270, 1633379543370429448, 270, 1633379543370429448, 1157029651212365939, 1728589635382849715);
    lemma_multiply(540, 1728589635382849715, 15, 616232432238528334, 461962497489162648, 405480896758582562);
    lemma_multiply(555, 405480896758582562, 555, 405480896758582562, 71303534967114127, 1679441191503938067);
    lemma_multiply(1110, 1679441191503938067, 1110, 1679441191503938067, 1223206742371408033, 72712580366788106);
    lemma_multiply(2220, 72712580366788106, 2220, 72712580366788106, 2292922511407035, 1056712747824721951);
    lemma_multiply(4440, 1056712747824721951, 15, 616232432238528334, 282404597436814873, 502597582918326411);
    lemma_multiply(4455, 502597582918326411, 4455, 502597582918326411, 109549665500204004, 605324780219361117);
    lemma_multiply(8910, 605324780219361117, 15, 616232432238528334, 161771968047396159, 1073090634303454869);
    lemma_multiply(8925, 1073090634303454869, 8925, 1073090634303454869, 499393716236764709, 2270502266396231902);
    lemma_multiply(17850, 2270502266396231902, 15, 616232432238528334, 606787681743156403, 971200757493693015);
    lemma_multiply(17865, 971200757493693015, 17865, 971200757493693015, 409061201299203108, 871652485759790517);
    lemma_multiply(35730, 871652485759790517, 15, 616232432238528334, 232947572415037474, 335541664576888904);
    lemma_multiply(35745, 335541664576888904, 35745, 335541664576888904, 48827352173217839, 1020392412158729327);
    lemma_multiply(71490, 1020392412158729327, 15, 616232432238528334, 272698052499565776, 911498693468430242);
    lemma_multiply(71505, 911498693468430242, 71505, 911498693468430242, 360315019224996256, 897169591715331108);
    lemma_multiply(143010, 897169591715331108, 143010, 897169591715331108, 349075489130170264, 2006004237055634600);
    lemma_multiply(286020, 2006004237055634600, 15, 616232432238528334, 536101055077087221, 302389419623656229);
    lemma_multiply(286035, 302389419623656229, 286035, 302389419623656229, 39655501582266440, 1013709766872196001);
    lemma_multiply(572070, 1013709766872196001, 15, 616232432238528334, 270912127463796731, 1063499823131718153);
    lemma_multiply(572085, 1063499823131718153, 572085, 1063499823131718153, 490506885890242946, 1035866828349111763);
    lemma_multiply(1144170, 1035866828349111763, 1144170, 1035866828349111763, 465348283376826396, 2145347332662637573);
    lemma_multiply(2288340, 2145347332662637573, 15, 616232432238528334, 573340248889692285, 1674682987777625347);
    lemma_multiply(2288355, 1674682987777625347, 2288355, 1674682987777625347, 1216285366499502751, 1486064616900311208);
    lemma_multiply(4576710, 1486064616900311208, 4576710, 1486064616900311208, 957735646693545736, 871749028725376328);
    lemma_multiply(9153420, 871749028725376328, 15, 616232432238528334, 232973373350426719, 404643590921800783);
    lemma_multiply(9153435, 404643590921800783, 9153435, 404643590921800783, 71009359709152422, 827231833621013767);
    lemma_multiply(18306870, 827231833621013767, 15, 616232432238528334, 221076232345604694, 1949666434688568184);
    lemma_multiply(18306885, 1949666434688568184, 18306885, 1949666434688568184, 1648507375117208967, 1813900680766199239);
    lemma_multiply(36613770, 1813900680766199239, 36613770, 1813900680766199239, 1426912268761120380, 2189865204655357741);
    lemma_multiply(73227540, 2189865204655357741, 73227540, 2189865204655357741, 2079720776912539622, 1185949325419396559);
    lemma_multiply(146455080, 1185949325419396559, 15, 616232432238528334, 316942842333420935, 82321806557338521);
    lemma_multiply(146455095, 82321806557338521, 146455095, 82321806557338521, 2939003135853042, 2175618874690118499);
    lemma_multiply(292910190, 2175618874690118499, 292910190, 2175618874690118499, 2052749241381349151, 1293695237874327400);
    lemma_multiply(585820380, 1293695237874327400, 585820380, 1293695237874327400, 725828845160380700, 1136020721943614300);
    lemma_multiply(1171640760, 1136020721943614300, 1171640760, 1136020721943614300, 559683844706051098, 348048172424981802);
    lemma_multiply(2343281520, 348048172424981802, 2343281520, 348048172424981802, 52535029420618914, 1516475897433177990);
    lemma_multiply(4686563040, 1516475897433177990, 4686563040, 1516475897433177990, 997335524711187309, 1784092700059172241);
    lemma_multiply(9373126080, 1784092700059172241, 15, 616232432238528334, 476795592546161315, 1455423971779070929);
    lemma_multiply(9373126095, 1455423971779070929, 9373126095, 1455423971779070929, 918648376825751301, 2151493287358842790);
    lemma_multiply(18746252190, 2151493287358842790, 18746252190, 2151493287358842790, 2007475507679358540, 840289780376792560);
    lemma_multiply(37492504380, 840289780376792560, 37492504380, 840289780376792560, 306216386885097642, 1175540357131590058);
    lemma_multiply(74985008760, 1175540357131590058, 15, 616232432238528334, 314161064120655253, 1733240812583228769);
    lemma_multiply(74985008775, 1733240812583228769, 74985008775, 1733240812583228769, 1302830983028890174, 1671445598562117887);
    lemma_multiply(149970017550, 1671445598562117887, 149970017550, 1671445598562117887, 1211587422816506080, 2144837918634622689);
    lemma_multiply(299940035100, 2144837918634622689, 15, 616232432238528334, 573204108899135389, 846557749966438187);
    lemma_multiply(299940035115, 846557749966438187, 299940035115, 846557749966438187, 310801741993971985, 224247538633884234);
    lemma_multiply(599880070230, 224247538633884234, 15, 616232432238528334, 59929754802771659, 1103470697722351447);
    lemma_multiply(599880070245, 1103470697722351447, 599880070245, 1103470697722351447, 528070460940477520, 1103469233907512289);
    lemma_multiply(1199760140490, 1103469233907512289, 1199760140490, 1103469233907512289, 528069059912129909, 4452294606539062);
    lemma_multiply(2399520280980, 4452294606539062, 2399520280980, 4452294606539062, 8596824321607, 1062955289637340587);
    lemma_multiply(4799040561960, 1062955289637340587, 4799040561960, 1062955289637340587, 490004715521936720, 1477328144968723849);
    lemma_multiply(9598081123920, 1477328144968723849, 9598081123920, 1477328144968723849, 946507823471024411, 99211968217336940);
    lemma_multiply(19196162247840, 99211968217336940, 15, 616232432238528334, 26514221582929622, 1195922107134741438);
    lemma_multiply(19196162247855, 1195922107134741438, 19196162247855, 1195922107134741438, 620263253230460267, 127341016110562927);
    lemma_multiply(38392324495710, 127341016110562927, 15, 616232432238528334, 34031659470302409, 1137164028835445659);
    lemma_multiply(38392324495725, 1137164028835445659, 38392324495725, 1137164028835445659, 560810958642943925, 68299742537246606);
    lemma_multiply(76784648991450, 68299742537246606, 15, 616232432238528334, 18252984395214825, 766800931428310829);
}

proof fn lemma_power_chain_2()
    requires
        generator_power(76784648991465) == 766800931428310829,
    ensures
        generator_power(76861433640456465) == 1682936192733059053,
{
    lemma_multiply(76784648991465, 766800931428310829, 76784648991465, 766800931428310829, 254997268283165097, 988720354875438994);
    lemma_multiply(153569297982930, 988720354875438994, 76784648991465, 766800931428310829, 328795883332556467, 1567218639895234909);
    lemma_multiply(230353946974395, 1567218639895234909, 230353946974395, 1567218639895234909, 1065195789748340189, 2078706432612741542);
    lemma_multiply(460707893948790, 2078706432612741542, 76784648991465, 766800931428310829, 691267368300593528, 48999829173409190);
    lemma_multiply(537492542940255, 48999829173409190, 537492542940255, 48999829173409190, 1041260506213747, 1692889968529511703);
    lemma_multiply(1074985085880510, 1692889968529511703, 76784648991465, 766800931428310829, 562965301404771872, 838320161895785515);
    lemma_multiply(1151769734871975, 838320161895785515, 1151769734871975, 838320161895785515, 304782542017302553, 1642564648970858322);
    lemma_multiply(2303539469743950, 1642564648970858322, 76784648991465, 766800931428310829, 546229772681521086, 1748166227180218152);
    lemma_multiply(2380324118735415, 1748166227180218152, 2380324118735415, 1748166227180218152, 1325365666978196032, 954922361379692672);
    lemma_multiply(4760648237470830, 954922361379692672, 4760648237470830, 954922361379692672, 395463486724503286, 770420979472676598);
    lemma_multiply(9521296474941660, 770420979472676598, 76784648991465, 766800931428310829, 256201104017490085, 413121640171303907);
    lemma_multiply(9598081123933125, 413121640171303907, 9598081123933125, 413121640171303907, 74016092550909440, 1954949521676667209);
    lemma_multiply(19196162247866250, 1954949521676667209, 19196162247866250, 1954949521676667209, 1657453528723577607, 1958059541040894424);
    lemma_multiply(38392324495732500, 1958059541040894424, 38392324495732500, 1958059541040894424, 1662731222785498191, 427880068976149135);
    lemma_multiply(76784648991465000, 427880068976149135, 76784648991465, 766800931428310829, 142290188065493962, 1682936192733059053);
}

proof fn lemma_power_chain_3()
    requires
        generator_power(76861433640456465) == 1682936192733059053,
    ensures
        generator_power(1152921504606846975) == 2305843009213693950,
{
    lemma_multiply(76861433640456465, 1682936192733059053, 76861433640456465, 1682936192733059053, 1228303148780569533, 1276162394648261926);
    lemma_multiply(153722867280912930, 1276162394648261926, 76861433640456465, 1682936192733059053, 931416351059748778, 524539192131274200);
    lemma_multiply(230584300921369395, 524539192131274200, 230584300921369395, 524539192131274200, 119323545871214630, 725554454131936870);
    lemma_multiply(461168601842738790, 725554454131936870, 76861433640456465, 1682936192733059053, 529551164488732494, 1470806031353040316);
    lemma_multiply(538030035483195255, 1470806031353040316, 538030035483195255, 1470806031353040316, 938168979076406661, 1090172437449572245);
    lemma_multiply(1076060070966390510, 1090172437449572245, 76861433640456465, 1682936192733059053, 795670235993014285, 2305843009213693950);
}

proof fn lemma_power_chain_4()
    requires
        generator_power(76861433640456465) == 1682936192733059053,
    ensures
        generator_power(153722867280912930) == 1276162394648261926,
{
    lemma_multiply(76861433640456465, 1682936192733059053, 76861433640456465, 1682936192733059053, 1228303148780569533, 1276162394648261926);
}

proof fn lemma_power_chain_5()
    requires
        generator_power(153722867280912930) == 1276162394648261926,
    ensures
        generator_power(768614336404564650) == 1669582390241348315,
{
    lemma_multiply(153722867280912930, 1276162394648261926, 153722867280912930, 1276162394648261926, 706288524850503659, 1611329470469562767);
    lemma_multiply(307445734561825860, 1611329470469562767, 307445734561825860, 1611329470469562767, 1126001489272725176, 651708828756085913);
    lemma_multiply(614891469123651720, 651708828756085913, 153722867280912930, 1276162394648261926, 360686437105876773, 1669582390241348315);
}

proof fn lemma_power_chain_6()
    requires
        generator_power(153722867280912930) == 1276162394648261926,
    ensures
        generator_power(461168601842738790) == 725554454131936870,
{
    lemma_multiply(153722867280912930, 1276162394648261926, 153722867280912930, 1276162394648261926, 706288524850503659, 1611329470469562767);
    lemma_multiply(307445734561825860, 1611329470469562767, 153722867280912930, 1276162394648261926, 891785809955452972, 725554454131936870);
}

proof fn lemma_power_chain_7()
    requires
        generator_power(76784648991465) == 766800931428310829,
    ensures
        generator_power(2303539469743950) == 1642564648970858322,
{
    lemma_multiply(76784648991465, 766800931428310829, 76784648991465, 766800931428310829, 254997268283165097, 988720354875438994);
    lemma_multiply(153569297982930, 988720354875438994, 76784648991465, 766800931428310829, 328795883332556467, 1567218639895234909);
    lemma_multiply(230353946974395, 1567218639895234909, 230353946974395, 1567218639895234909, 1065195789748340189, 2078706432612741542);
    lemma_multiply(460707893948790, 2078706432612741542, 76784648991465, 766800931428310829, 691267368300593528, 48999829173409190);
    lemma_multiply(537492542940255, 48999829173409190, 537492542940255, 48999829173409190, 1041260506213747, 1692889968529511703);
    lemma_multiply(1074985085880510, 1692889968529511703, 76784648991465, 766800931428310829, 562965301404771872, 838320161895785515);
    lemma_multiply(1151769734871975, 838320161895785515, 1151769734871975, 838320161895785515, 304782542017302553, 1642564648970858322);
}

proof fn lemma_power_chain_8()
    requires
        generator_power(2303539469743950) == 1642564648970858322,
    ensures
        generator_power(329406144173384850) == 1165310750493918737,
{
    lemma_multiply(2303539469743950, 1642564648970858322, 2303539469743950, 1642564648970858322, 1170079062307368126, 476799388140249858);
    lemma_multiply(4607078939487900, 476799388140249858, 4607078939487900, 476799388140249858, 98591992439433297, 732028528232133717);
    lemma_multiply(9214157878975800, 732028528232133717, 9214157878975800, 732028528232133717, 232394731126312529, 1133519049185424010);
    lemma_multiply(18428315757951600, 1133519049185424010, 18428315757951600, 1133519049185424010, 557221558333398585, 1172931859598020765);
    lemma_multiply(36856631515903200, 1172931859598020765, 2303539469743950, 1642564648970858322, 835536678138528867, 915111392512272813);
    lemma_multiply(39160170985647150, 915111392512272813, 39160170985647150, 915111392512272813, 363176876031694461, 1366871687343027558);
    lemma_multiply(78320341971294300, 1366871687343027558, 2303539469743950, 1642564648970858322, 973689494183917927, 1561654671879278099);
    lemma_multiply(80623881441038250, 1561654671879278099, 80623881441038250, 1561654671879278099, 1057645860736203840, 2193361106070081961);
    lemma_multiply(161247762882076500, 2193361106070081961, 2303539469743950, 1642564648970858322, 1562438293007160276, 1196872280390238966);
    lemma_multiply(163551302351820450, 1196872280390238966, 163551302351820450, 1196872280390238966, 621249256711116187, 1511713043964664319);
    lemma_multiply(327102604703640900, 1511713043964664319, 2303539469743950, 1642564648970858322, 1076867070083506531, 1165310750493918737);
}

proof fn lemma_power_chain_9()
    requires
        generator_power(2303539469743950) == 1642564648970858322,
    ensures
        generator_power(16124776288207650) == 11832527352311032,
{
    lemma_multiply(2303539469743950, 1642564648970858322, 2303539469743950, 1642564648970858322, 1170079062307368126, 476799388140249858);
    lemma_multiply(4607078939487900, 476799388140249858, 2303539469743950, 1642564648970858322, 339647502662020526, 55556743954580050);
    lemma_multiply(6910618409231850, 55556743954580050, 6910618409231850, 55556743954580050, 1338578466314278, 888404651384470122);
    lemma_multiply(13821236818463700, 888404651384470122, 2303539469743950, 1642564648970858322, 632854044492398852, 11832527352311032);
}

proof fn lemma_power_chain_10()
    requires
        generator_power(16124776288207650) == 11832527352311032,
    ensures
        generator_power(209622091746699450) == 2266698407988980144,
{
    lemma_multiply(16124776288207650, 11832527352311032, 16124776288207650, 11832527352311032, 60719096219361, 1525329277854119713);
    lemma_multiply(32249552576415300, 1525329277854119713, 16124776288207650, 11832527352311032, 7827289338160255, 288205477576456311);
    lemma_multiply(48374328864622950, 288205477576456311, 48374328864622950, 288205477576456311, 36022572644005815, 1348553118417403656);
    lemma_multiply(96748657729245900, 1348553118417403656, 96748657729245900, 1348553118417403656, 788690082510628384, 411444993172461152);
    lemma_multiply(193497315458491800, 411444993172461152, 16124776288207650, 11832527352311032, 2111346746604720, 2266698407988980144);
}

proof fn lemma_power_chain_11()
    requires
        generator_power(16124776288207650) == 11832527352311032,
    ensures
        generator_power(177372539170284150) == 1032504562576723207,
{
    lemma_multiply(16124776288207650, 11832527352311032, 16124776288207650, 11832527352311032, 60719096219361, 1525329277854119713);
    lemma_multiply(32249552576415300, 1525329277854119713, 32249552576415300, 1525329277854119713, 1009014662569055241, 1277022092348655178);
    lemma_multiply(64499105152830600, 1277022092348655178, 16124776288207650, 11832527352311032, 6553090898574947, 1561654671879278099);
    lemma_multiply(80623881441038250, 1561654671879278099, 80623881441038250, 1561654671879278099, 1057645860736203840, 2193361106070081961);
    lemma_multiply(161247762882076500, 2193361106070081961, 16124776288207650, 11832527352311032, 11255321883305295, 1032504562576723207);
}

proof fn lemma_power_chain_12()
    requires
        generator_power(15) == 616232432238528334,
    ensures
        generator_power(450450) == 1670784718753464026,
{
    lemma_multiply(15, 616232432238528334, 15, 616232432238528334, 164687018598073081, 402778895455182525);
    lemma_multiply(30, 402778895455182525, 15, 616232432238528334, 107641941541082869, 1733397811259137931);
    lemma_multiply(45, 1733397811259137931, 45, 1733397811259137931, 1303067017169820005, 2117691829455671006);
    lemma_multiply(90, 2117691829455671006, 15, 616232432238528334, 565949364975257484, 900906778915004720);
    lemma_multiply(105, 900906778915004720, 105, 900906778915004720, 351989715280651667, 851384426046312083);
    lemma_multiply(210, 851384426046312083, 210, 851384426046312083, 314355937510849111, 1845566074137371328);
    lemma_multiply(420, 1845566074137371328, 15, 616232432238528334, 493224242144051967, 419025487029655935);
    lemma_multiply(435, 419025487029655935, 435, 419025487029655935, 76146709935953086, 1805569618582741439);
    lemma_multiply(870, 1805569618582741439, 870, 1805569618582741439, 1413835041901110798, 86778089014407823);
    lemma_multiply(1740, 86778089014407823, 15, 616232432238528334, 23191289539089436, 2290680021495555246);
    lemma_multiply(1755, 2290680021495555246, 1755, 2290680021495555246, 2275616744033328034, 676603484573598182);
    lemma_multiply(3510, 676603484573598182, 3510, 676603484573598182, 198535751787041727, 835182250149211747);
    lemma_multiply(7020, 835182250149211747, 15, 616232432238528334, 223200966984911960, 502727399305585538);
    lemma_multiply(7035, 502727399305585538, 7035, 502727399305585538, 109606264174394819, 632147292128709575);
    lemma_multiply(14070, 632147292128709575, 14070, 632147292128709575, 173303298337699718, 163321707705674807);
    lemma_multiply(28140, 163321707705674807, 28140, 163321707705674807, 11567994916095290, 1067152105221896459);
    lemma_multiply(56280, 1067152105221896459, 15, 616232432238528334, 285194497084866730, 412216226843619076);
    lemma_multiply(56295, 412216226843619076, 56295, 412216226843619076, 73692015021930958, 1060187097326858718);
    lemma_multiply(112590, 1060187097326858718, 15, 616232432238528334, 283333111145507710, 1938308571007053602);
    lemma_multiply(112605, 1938308571007053602, 112605, 1938308571007053602, 1629356422543518678, 1978323159557057626);
    lemma_multiply(225210, 1978323159557057626, 15, 616232432238528334, 528703336478825773, 916773901198775961);
    lemma_multiply(225225, 916773901198775961, 225225, 916773901198775961, 364497662052816745, 1670784718753464026);
}

proof fn lemma_power_chain_13()
    requires
        generator_power(450450) == 1670784718753464026,
    ensures
        generator_power(29740916655450) == 2127463701410345340,
{
    lemma_multiply(450450, 1670784718753464026, 450450, 1670784718753464026, 1210629503077929484, 388550606140777392);
    lemma_multiply(900900, 388550606140777392, 450450, 1670784718753464026, 281538861322472442, 584167713326501850);
    lemma_multiply(1351350, 584167713326501850, 1351350, 584167713326501850, 147994428037615171, 1980108856544891879);
    lemma_multiply(2702700, 1980108856544891879, 450450, 1670784718753464026, 1434761866165278250, 138830028629179104);
    lemma_multiply(3153150, 138830028629179104, 3153150, 138830028629179104, 8358668292752142, 793484261022549774);
    lemma_multiply(6306300, 793484261022549774, 450450, 1670784718753464026, 574948672823978021, 860771581658779153);
    lemma_multiply(6756750, 860771581658779153, 6756750, 860771581658779153, 321326175646284359, 1489521044283185000);
    lemma_multiply(13513500, 1489521044283185000, 450450, 1670784718753464026, 1079288134146954815, 744243730166985935);
    lemma_multiply(13963950, 744243730166985935, 13963950, 744243730166985935, 240215282514724235, 622983650035221740);
    lemma_multiply(27927900, 622983650035221740, 27927900, 622983650035221740, 168315287146784101, 1443046850481954549);
    lemma_multiply(55855800, 1443046850481954549, 450450, 1670784718753464026, 1045613520346615757, 440955673246368367);
    lemma_multiply(56306250, 440955673246368367, 56306250, 440955673246368367, 84325734662423450, 622337385992695739);
    lemma_multiply(112612500, 622337385992695739, 450450, 1670784718753464026, 450937808979522530, 710678922570769184);
    lemma_multiply(113062950, 710678922570769184, 113062950, 710678922570769184, 219036824696308930, 2289037757035743426);
    lemma_multiply(226125900, 2289037757035743426, 450450, 1670784718753464026, 1658607845296977994, 99072993759078782);
    lemma_multiply(226576350, 99072993759078782, 226576350, 99072993759078782, 4256776395082331, 1005106990000923743);
    lemma_multiply(453152700, 1005106990000923743, 450450, 1670784718753464026, 728287829178141351, 1435141953988101517);
    lemma_multiply(453603150, 1435141953988101517, 453603150, 1435141953988101517, 893223181225651993, 1468764475962506946);
    lemma_multiply(907206300, 1468764475962506946, 907206300, 1468764475962506946, 935566331805502713, 9828065816057853);
    lemma_multiply(1814412600, 9828065816057853, 450450, 1670784718753464026, 7121292349374760, 868433574526219418);
    lemma_multiply(1814863050, 868433574526219418, 1814863050, 868433574526219418, 327072081815997287, 2023814441615947787);
    lemma_multiply(3629726100, 2023814441615947787, 450450, 1670784718753464026, 1466430381050773809, 1146286363546281103);
    lemma_multiply(3630176550, 1146286363546281103, 3630176550, 1146286363546281103, 569844704085135988, 1748933379846888021);
    lemma_multiply(7260353100, 1748933379846888021, 450450, 1670784718753464026, 1267255035789482637, 1153450907927403759);
    lemma_multiply(7260803550, 1153450907927403759, 7260803550, 1153450907927403759, 576990277170796206, 1221560161131380175);
    lemma_multiply(14521607100, 1221560161131380175, 14521607100, 1221560161131380175, 647142594400724459, 289338682476983116);
    lemma_multiply(29043214200, 289338682476983116, 450450, 1670784718753464026, 209651154608159571, 826746024349929995);
    lemma_multiply(29043664650, 826746024349929995, 29043664650, 826746024349929995, 296424772218771143, 804437232488244032);
    lemma_multiply(58087329300, 804437232488244032, 58087329300, 804437232488244032, 280643243459153214, 445558799369608510);
    lemma_multiply(116174658600, 445558799369608510, 450450, 1670784718753464026, 322846278050273006, 794779200707674554);
    lemma_multiply(116175109050, 794779200707674554, 116175109050, 794779200707674554, 273944919646951411, 824986603257484055);
    lemma_multiply(232350218100, 824986603257484055, 450450, 1670784718753464026, 597774872092859913, 2275679050012619167);
    lemma_multiply(232350668550, 2275679050012619167, 232350668550, 2275679050012619167, 2245909681610245103, 959381698237301936);
    lemma_multiply(464701337100, 959381698237301936, 450450, 1670784718753464026, 695155860334670601, 1055810316064919785);
    lemma_multiply(464701787550, 1055810316064919785, 464701787550, 1055810316064919785, 483439427166048550, 1002842100777125175);
    lemma_multiply(929403575100, 1002842100777125175, 929403575100, 1002842100777125175, 436149501536977869, 1092173343192610206);
    lemma_multiply(1858807150200, 1092173343192610206, 1858807150200, 1092173343192610206, 517313020363554356, 803647416718461880);
    lemma_multiply(3717614300400, 803647416718461880, 3717614300400, 803647416718461880, 280092429457500445, 1615590571336826205);
    lemma_multiply(7435228600800, 1615590571336826205, 450450, 1670784718753464026, 1170636521031943977, 1773702965825818203);
    lemma_multiply(7435229051250, 1773702965825818203, 7435229051250, 1773702965825818203, 1364369646332564384, 1868049695227308025);
    lemma_multiply(14870458102500, 1868049695227308025, 14870458102500, 1868049695227308025, 1513376951464191766, 1019091420731193159);
    lemma_multiply(29740916205000, 1019091420731193159, 450450, 1670784718753464026, 738420771044191494, 2127463701410345340);
}

proof fn lemma_power_chain_14()
    requires
        generator_power(29740916655450) == 2127463701410345340,
    ensures
        generator_power(74382032555280450) == 484083891529811867,
{
    lemma_multiply(29740916655450, 2127463701410345340, 29740916655450, 2127463701410345340, 1962883762135235047, 436230981552614903);
    lemma_multiply(59481833310900, 436230981552614903, 59481833310900, 436230981552614903, 82528371838831474, 907300618115485635);
    lemma_multiply(118963666621800, 907300618115485635, 118963666621800, 907300618115485635, 357003667788058322, 265489280444743003);
    lemma_multiply(237927333243600, 265489280444743003, 29740916655450, 2127463701410345340, 244951111156673543, 639966885357817627);
    lemma_multiply(267668249899050, 639966885357817627, 267668249899050, 639966885357817627, 177617302096489061, 1623813364518541118);
    lemma_multiply(535336499798100, 1623813364518541118, 29740916655450, 2127463701410345340, 1498195660794896061, 1916057720460263109);
    lemma_multiply(565077416453550, 1916057720460263109, 565077416453550, 1916057720460263109, 1592162681269141091, 561005816394105340);
    lemma_multiply(1130154832907100, 561005816394105340, 29740916655450, 2127463701410345340, 517606578543928334, 506919190984807966);
    lemma_multiply(1159895749562550, 506919190984807966, 1159895749562550, 506919190984807966, 111441700567602604, 206336430850408752);
    lemma_multiply(2319791499125100, 206336430850408752, 2319791499125100, 206336430850408752, 18463842736025530, 279142049935628474);
    lemma_multiply(4639582998250200, 279142049935628474, 4639582998250200, 279142049935628474, 33792536495724475, 838578760689417951);
    lemma_multiply(9279165996500400, 838578760689417951, 9279165996500400, 838578760689417951, 304970605140720457, 869822052718182794);
    lemma_multiply(18558331993000800, 869822052718182794, 29740916655450, 2127463701410345340, 802532885565009113, 1523742555078104497);
    lemma_multiply(18588072909656250, 1523742555078104497, 18588072909656250, 1523742555078104497, 1006916500767194403, 560125052289466756);
    lemma_multiply(37176145819312500, 560125052289466756, 37176145819312500, 560125052289466756, 136063068018349211, 1102294944432840875);
    lemma_multiply(74352291638625000, 1102294944432840875, 29740916655450, 2127463701410345340, 1017021745694947783, 484083891529811867);
}

proof fn lemma_power_chain_15()
    requires
        generator_power(29740916655450) == 2127463701410345340,
    ensures
        generator_power(921968416318950) == 2050139998576712393,
{
    lemma_multiply(29740916655450, 2127463701410345340, 29740916655450, 2127463701410345340, 1962883762135235047, 436230981552614903);
    lemma_multiply(59481833310900, 436230981552614903, 29740916655450, 2127463701410345340, 402484286647194601, 600427526907043469);
    lemma_multiply(89222749966350, 600427526907043469, 89222749966350, 600427526907043469, 156347684394457339, 1065137560383697572);
    lemma_multiply(178445499932700, 1065137560383697572, 29740916655450, 2127463701410345340, 982738845476657124, 2197721427539657556);
    lemma_multiply(208186416588150, 2197721427539657556, 208186416588150, 2197721427539657556, 2094669695103831777, 2124334941081412209);
    lemma_multiply(416372833176300, 2124334941081412209, 29740916655450, 2127463701410345340, 1959997041745503148, 1335456733403198312);
    lemma_multiply(446113749831750, 1335456733403198312, 446113749831750, 1335456733403198312, 773445841571021018, 1034643580359187226);
    lemma_multiply(892227499663500, 1034643580359187226, 29740916655450, 2127463701410345340, 954603870391861297, 2050139998576712393);
}

proof fn lemma_power_chain_16()
    requires
        generator_power(921968416318950) == 2050139998576712393,
    ensures
        generator_power(56240073395455950) == 1562651311446036838,
{
    lemma_multiply(921968416318950, 2050139998576712393, 921968416318950, 2050139998576712393, 1822792790736172143, 131960501385979456);
    lemma_multiply(1843936832637900, 131960501385979456, 921968416318950, 2050139998576712393, 117326939016498377, 265201131352380681);
    lemma_multiply(2765905248956850, 265201131352380681, 2765905248956850, 265201131352380681, 30501486783597715, 1188386853629101796);
    lemma_multiply(5531810497913700, 1188386853629101796, 921968416318950, 2050139998576712393, 1056602471492004735, 595277467478899843);
    lemma_multiply(6453778914232650, 595277467478899843, 6453778914232650, 595277467478899843, 153677098515449190, 588625139674574959);
    lemma_multiply(12907557828465300, 588625139674574959, 921968416318950, 2050139998576712393, 523350435477462905, 1110962683237379232);
    lemma_multiply(13829526244784250, 1110962683237379232, 13829526244784250, 1110962683237379232, 535265444617966373, 1325426534953400101);
    lemma_multiply(27659052489568500, 1325426534953400101, 27659052489568500, 1325426534953400101, 761871251658906611, 197792063542200140);
    lemma_multiply(55318104979137000, 197792063542200140, 921968416318950, 2050139998576712393, 175858208580804282, 1562651311446036838);
}

proof fn lemma_power_chain_17()
    requires
        generator_power(921968416318950) == 2050139998576712393,
    ensures
        generator_power(37800705069076950) == 35184372088832,
{
    lemma_multiply(921968416318950, 2050139998576712393, 921968416318950, 2050139998576712393, 1822792790736172143, 131960501385979456);
    lemma_multiply(1843936832637900, 131960501385979456, 1843936832637900, 131960501385979456, 7551933872539404, 1550574740810110732);
    lemma_multiply(3687873665275800, 1550574740810110732, 921968416318950, 2050139998576712393, 1378626074808774004, 1918365732465851872);
    lemma_multiply(4609842081594750, 1918365732465851872, 4609842081594750, 1918365732465851872, 1596000711581049645, 420970814278706989);
    lemma_multiply(9219684163189500, 420970814278706989, 9219684163189500, 420970814278706989, 76855373833498516, 510778719680769405);
    lemma_multiply(18439368326379000, 510778719680769405, 18439368326379000, 510778719680769405, 113145127155769684, 1580178400564072541);
    lemma_multiply(36878736652758000, 1580178400564072541, 921968416318950, 2050139998576712393, 1404946881005614331, 35184372088832);
}

proof fn lemma_power_chain_18()
    requires
        generator_power(450450) == 1670784718753464026,
    ensures
        generator_power(34923838950) == 1397808639936228838,
{
    lemma_multiply(450450, 1670784718753464026, 450450, 1670784718753464026, 1210629503077929484, 388550606140777392);
    lemma_multiply(900900, 388550606140777392, 900900, 388550606140777392, 65473483202938310, 282074565825158854);
    lemma_multiply(1801800, 282074565825158854, 1801800, 282074565825158854, 34506278340512162, 2096718929073261254);
    lemma_multiply(3603600, 2096718929073261254, 450450, 1670784718753464026, 1519256051786167920, 1775746135414396684);
    lemma_multiply(4054050, 1775746135414396684, 4054050, 1775746135414396684, 1367514754837732846, 1740512181965981310);
    lemma_multiply(8108100, 1740512181965981310, 8108100, 1740512181965981310, 1313785302584419468, 593499792111078032);
    lemma_multiply(16216200, 593499792111078032, 450450, 1670784718753464026, 430042452708301186, 343814664256550946);
    lemma_multiply(16666650, 343814664256550946, 16666650, 343814664256550946, 51264775132351553, 101060947611939013);
    lemma_multiply(33333300, 101060947611939013, 450450, 1670784718753464026, 73227486111620105, 2120384316152961483);
    lemma_multiply(33783750, 2120384316152961483, 33783750, 2120384316152961483, 1949842044849633848, 23592381399105841);
    lemma_multiply(67567500, 23592381399105841, 450450, 1670784718753464026, 17094741560081840, 1582081285487026026);
    lemma_multiply(68017950, 1582081285487026026, 68017950, 1582081285487026026, 1085495059241614232, 589817473147442044);
    lemma_multiply(136035900, 589817473147442044, 136035900, 589817473147442044, 150870918028658088, 203160910286072248);
    lemma_multiply(272071800, 203160910286072248, 450450, 1670784718753464026, 147207829413227643, 2169730458009862955);
    lemma_multiply(272522250, 2169730458009862955, 272522250, 2169730458009862955, 2041652550327376113, 215536695831339562);
    lemma_multiply(545044500, 215536695831339562, 450450, 1670784718753464026, 156175167297454942, 2199152422557140770);
    lemma_multiply(545494950, 2199152422557140770, 545494950, 2199152422557140770, 2097398373746241319, 1041397867739631531);
    lemma_multiply(1090989900, 1041397867739631531, 1090989900, 1041397867739631531, 470331030603195844, 892990126518264317);
    lemma_multiply(2181979800, 892990126518264317, 450450, 1670784718753464026, 647049366076842037, 1290233323329542055);
    lemma_multiply(2182430250, 1290233323329542055, 2182430250, 1290233323329542055, 721949422392666623, 484950084918925552);
    lemma_multiply(4364860500, 484950084918925552, 450450, 1670784718753464026, 351388705997393374, 71187114212911678);
    lemma_multiply(4365310950, 71187114212911678, 4365310950, 71187114212911678, 2197723439849539, 112676356794337095);
    lemma_multiply(8730621900, 112676356794337095, 8730621900, 112676356794337095, 5505995564188106, 2304072276014692219);
    lemma_multiply(17461243800, 2304072276014692219, 450450, 1670784718753464026, 1669501667844074318, 420289721527563276);
    lemma_multiply(17461694250, 420289721527563276, 17461694250, 420289721527563276, 76606884907551942, 763324479960149334);
    lemma_multiply(34923388500, 763324479960149334, 450450, 1670784718753464026, 553095276422463146, 1397808639936228838);
}

proof fn lemma_power_chain_19()
    requires
        generator_power(34923838950) == 1397808639936228838,
    ensures
        generator_power(15270483504726450) == 1433721343585656393,
{
    lemma_multiply(34923838950, 1397808639936228838, 34923838950, 1397808639936228838, 847355603166865498, 1801868318549627646);
    lemma_multiply(69847677900, 1801868318549627646, 34923838950, 1397808639936228838, 1092297738238005576, 1041704156451784572);
    lemma_multiply(104771516850, 1041704156451784572, 104771516850, 1041704156451784572, 470607732283979634, 1302079195504229250);
    lemma_multiply(209543033700, 1302079195504229250, 209543033700, 1302079195504229250, 735266982440008235, 30522541345876015);
    lemma_multiply(419086067400, 30522541345876015, 34923838950, 1397808639936228838, 18502852030947748, 281594712070848222);
    lemma_multiply(454009906350, 281594712070848222, 454009906350, 281594712070848222, 34388976851162202, 3705390673321182);
    lemma_multiply(908019812700, 3705390673321182, 908019812700, 3705390673321182, 5954403655007, 1243664423843114467);
    lemma_multiply(1816039625400, 1243664423843114467, 34923838950, 1397808639936228838, 753912937647053337, 107672460649134859);
    lemma_multiply(1850963464350, 107672460649134859, 1850963464350, 107672460649134859, 5027817911243184, 2102279565858169897);
    lemma_multiply(3701926928700, 2102279565858169897, 3701926928700, 2102279565858169897, 1916687023082251337, 1063737662938428122);
    lemma_multiply(7403853857400, 1063737662938428122, 34923838950, 1397808639936228838, 644840819578584002, 489058395833810334);
    lemma_multiply(7438777696350, 489058395833810334, 7438777696350, 489058395833810334, 103726972556167672, 152346445837039484);
    lemma_multiply(14877555392700, 152346445837039484, 34923838950, 1397808639936228838, 92352852038789977, 1755735461021110465);
    lemma_multiply(14912479231650, 1755735461021110465, 14912479231650, 1755735461021110465, 1336867686468472306, 1411958543729295219);
    lemma_multiply(29824958463300, 1411958543729295219, 29824958463300, 1411958543729295219, 864597859110100737, 967506946958716074);
    lemma_multiply(59649916926600, 967506946958716074, 59649916926600, 967506946958716074, 405955517644967997, 185850118998487329);
    lemma_multiply(119299833853200, 185850118998487329, 119299833853200, 185850118998487329, 14979452891517681, 2223337673534306610);
    lemma_multiply(238599667706400, 2223337673534306610, 238599667706400, 2223337673534306610, 2143784460088899828, 913419346001151672);
    lemma_multiply(477199335412800, 913419346001151672, 477199335412800, 913419346001151672, 361835085179404625, 669169207204472209);
    lemma_multiply(954398670825600, 669169207204472209, 954398670825600, 669169207204472209, 194196840843627082, 1517582827930158699);
    lemma_multiply(1908797341651200, 1517582827930158699, 1908797341651200, 1517582827930158699, 998792038497822055, 1657612156497483296);
    lemma_multiply(3817594683302400, 1657612156497483296, 3817594683302400, 1657612156497483296, 1191615409370480715, 1407650100041368651);
    lemma_multiply(7635189366604800, 1407650100041368651, 34923838950, 1397808639936228838, 853321524484832057, 2010843798223570331);
    lemma_multiply(7635224290443750, 2010843798223570331, 7635224290443750, 2010843798223570331, 1753585462972628690, 1878184529281395371);
    lemma_multiply(15270448580887500, 1878184529281395371, 34923838950, 1397808639936228838, 1138560843879545255, 1433721343585656393);
}

proof fn lemma_power_chain_20()
    requires
        generator_power(34923838950) == 1397808639936228838,
    ensures
        generator_power(5273499681450) == 1509146951764110639,
{
    lemma_multiply(34923838950, 1397808639936228838, 34923838950, 1397808639936228838, 847355603166865498, 1801868318549627646);
    lemma_multiply(69847677900, 1801868318549627646, 69847677900, 1801868318549627646, 1408044443797592391, 2153079923927174475);
    lemma_multiply(139695355800, 2153079923927174475, 139695355800, 2153079923927174475, 2010437458358913410, 1340818484441742715);
    lemma_multiply(279390711600, 1340818484441742715, 34923838950, 1397808639936228838, 812808007591975588, 2264897194464146982);
    lemma_multiply(314314550550, 2264897194464146982, 314314550550, 2264897194464146982, 2224678471601950980, 191208412675186344);
    lemma_multiply(628629101100, 191208412675186344, 628629101100, 191208412675186344, 15855657532483862, 34687909809567574);
    lemma_multiply(1257258202200, 34687909809567574, 34923838950, 1397808639936228838, 21027910330147148, 888320846620997264);
    lemma_multiply(1292182041150, 888320846620997264, 1292182041150, 888320846620997264, 342223613397920721, 499380586840227025);
    lemma_multiply(2584364082300, 499380586840227025, 34923838950, 1397808639936228838, 302725942795094621, 691014472291609379);
    lemma_multiply(2619287921250, 691014472291609379, 2619287921250, 691014472291609379, 207083049023047774, 1723128071032950567);
    lemma_multiply(5238575842500, 1723128071032950567, 34923838950, 1397808639936228838, 1044565174551000357, 1509146951764110639);
}

proof fn lemma_power_chain_21()
    requires
        generator_power(5273499681450) == 1509146951764110639,
    ensures
        generator_power(6966293079195450) == 185945230422323302,
{
    lemma_multiply(5273499681450, 1509146951764110639, 5273499681450, 1509146951764110639, 987718813864763569, 902554418892517202);
    lemma_multiply(10546999362900, 902554418892517202, 10546999362900, 902554418892517202, 353278378366354758, 384617732161239946);
    lemma_multiply(21093998725800, 384617732161239946, 5273499681450, 1509146951764110639, 251727752395205543, 1547480479229615101);
    lemma_multiply(26367498407250, 1547480479229615101, 26367498407250, 1547480479229615101, 1038533770091019596, 318669881519576405);
    lemma_multiply(52734996814500, 318669881519576405, 52734996814500, 318669881519576405, 44040506219168051, 1600955698881564524);
    lemma_multiply(105469993629000, 1600955698881564524, 105469993629000, 1600955698881564524, 1111549719360719604, 1126289711593431172);
    lemma_multiply(210939987258000, 1126289711593431172, 5273499681450, 1509146951764110639, 737143282635761997, 1387064325004858761);
    lemma_multiply(216213486939450, 1387064325004858761, 216213486939450, 1387064325004858761, 834379198416141029, 1074151877898239542);
    lemma_multiply(432426973878900, 1074151877898239542, 432426973878900, 1074151877898239542, 500381965373162102, 1566493825872524762);
    lemma_multiply(864853947757800, 1566493825872524762, 5273499681450, 1509146951764110639, 1025251664066662475, 716193183768954193);
    lemma_multiply(870127447439250, 716193183768954193, 870127447439250, 716193183768954193, 222449088870115253, 1871701857693346646);
    lemma_multiply(1740254894878500, 1871701857693346646, 1740254894878500, 1871701857693346646, 1519300242945576694, 203040407805071322);
    lemma_multiply(3480509789757000, 203040407805071322, 3480509789757000, 203040407805071322, 17878670419851251, 1755056839848344983);
    lemma_multiply(6961019579514000, 1755056839848344983, 5273499681450, 1509146951764110639, 1148663924407015085, 185945230422323302);
}

proof fn lemma_power_chain_22()
    requires
        generator_power(5273499681450) == 1509146951764110639,
    ensures
        generator_power(1745528394559950) == 30210013857155493,
{
    lemma_multiply(5273499681450, 1509146951764110639, 5273499681450, 1509146951764110639, 987718813864763569, 902554418892517202);
    lemma_multiply(10546999362900, 902554418892517202, 10546999362900, 902554418892517202, 353278378366354758, 384617732161239946);
    lemma_multiply(21093998725800, 384617732161239946, 5273499681450, 1509146951764110639, 251727752395205543, 1547480479229615101);
    lemma_multiply(26367498407250, 1547480479229615101, 26367498407250, 1547480479229615101, 1038533770091019596, 318669881519576405);
    lemma_multiply(52734996814500, 318669881519576405, 52734996814500, 318669881519576405, 44040506219168051, 1600955698881564524);
    lemma_multiply(105469993629000, 1600955698881564524, 105469993629000, 1600955698881564524, 1111549719360719604, 1126289711593431172);
    lemma_multiply(210939987258000, 1126289711593431172, 5273499681450, 1509146951764110639, 737143282635761997, 1387064325004858761);
    lemma_multiply(216213486939450, 1387064325004858761, 216213486939450, 1387064325004858761, 834379198416141029, 1074151877898239542);
    lemma_multiply(432426973878900, 1074151877898239542, 432426973878900, 1074151877898239542, 500381965373162102, 1566493825872524762);
    lemma_multiply(864853947757800, 1566493825872524762, 5273499681450, 1509146951764110639, 1025251664066662475, 716193183768954193);
    lemma_multiply(870127447439250, 716193183768954193, 870127447439250, 716193183768954193, 222449088870115253, 1871701857693346646);
    lemma_multiply(1740254894878500, 1871701857693346646, 5273499681450, 1509146951764110639, 1225006707682309851, 30210013857155493);
}

/// The powers of the generator at `(modulus - 1) / q`, for every prime `q`
/// that divides `modulus - 1`; none of them is one.
pub proof fn lemma_certificate_powers()
    ensures
        generator_power(2305843009213693950) == 1,
        generator_power(1152921504606846975) == 2305843009213693950,
        generator_power(768614336404564650) == 1669582390241348315,
        generator_power(461168601842738790) == 725554454131936870,
        generator_power(329406144173384850) == 1165310750493918737,
        generator_power(209622091746699450) == 2266698407988980144,
        generator_power(177372539170284150) == 1032504562576723207,
        generator_power(74382032555280450) == 484083891529811867,
        generator_power(56240073395455950) == 1562651311446036838,
        generator_power(37800705069076950) == 35184372088832,
        generator_power(15270483504726450) == 1433721343585656393,
        generator_power(6966293079195450) == 185945230422323302,
        generator_power(1745528394559950) == 30210013857155493,
{
    lemma_generator_power_one();
    lemma_power_chain_0();
    lemma_power_chain_1();
    lemma_power_chain_2();
    lemma_power_chain_3();
    lemma_power_chain_4();
    lemma_power_chain_5();
    lemma_power_chain_6();
    lemma_power_chain_7();
    lemma_power_chain_8();
    lemma_power_chain_9();
    lemma_power_chain_10();
    lemma_power_chain_11();
    lemma_power_chain_12();
    lemma_power_chain_13();
    lemma_power_chain_14();
    lemma_power_chain_15();
    lemma_power_chain_16();
    lemma_power_chain_17();
    lemma_power_chain_18();
    lemma_power_chain_19();
    lemma_power_chain_20();
    lemma_power_chain_21();
    lemma_power_chain_22();
    lemma_multiply(1152921504606846975, 2305843009213693950, 1152921504606846975, 2305843009213693950, 2305843009213693949, 1);
}

} // verus!
